use enargeia::block::{
    candidates_for, ensure_index, index_entity, keys_for, reindex_all, MAX_CANDIDATES,
};
use enargeia::double::Double;
use enargeia::resolve::create_entity;
use enargeia::world::World;

#[test]
fn keys_cover_norm_tokens_and_phonetics() {
    let keys = keys_for("Meta Platforms, Inc.");
    assert!(keys.contains(&("norm", "meta platforms inc".to_string())));
    assert!(keys.contains(&("token", "meta".to_string())));
    assert!(keys.contains(&("token", "platforms".to_string())));
    // "inc" is ignorable: no token key for it
    assert!(!keys.contains(&("token", "inc".to_string())));
    assert!(keys.iter().any(|(t, _)| *t == "phon"));
}

fn double(x: f64) -> Double {
    Double { bits: x.to_bits() }
}

#[test]
fn keys_come_in_order_each_once() {
    let keys = keys_for("Meta meta Platforms of Meta");
    let mut sorted = keys.clone();
    sorted.sort();
    sorted.dedup();
    assert_eq!(keys, sorted);
    assert!(keys_for(" ?! ").is_empty());
    // Short tokens are no keys of their own.
    assert_eq!(keys_for("Yo"), vec![("norm", "yo".to_string())]);
}

#[test]
fn candidates_share_a_key_with_the_mention() {
    let mut world = World::new();
    create_entity(&mut world, "Mistral AI", "organization", double(0.8));
    create_entity(&mut world, "Nvidia", "organization", double(0.8));
    let found = candidates_for(&world, "Mistral");
    assert_eq!(found.len(), 1);
    assert_eq!(found[0].canonical_name, "Mistral AI");
    assert!(candidates_for(&world, "!!!").is_empty());
}

#[test]
fn candidates_are_capped() {
    let mut world = World::new();
    for i in 0..60 {
        create_entity(&mut world, &format!("Mistral Company{i}"), "organization", double(0.5));
    }
    assert_eq!(candidates_for(&world, "Mistral").len(), MAX_CANDIDATES);
}

#[test]
fn indexed_entity_is_found_under_each_name() {
    let mut world = World::new();
    let id = create_entity(&mut world, "Recorded Future", "organization", double(0.8));
    index_entity(&mut world, &id, "Recorded Future", &["Insikt Group".to_string()]);
    for name in ["Recorded Future", "Insikt Group"] {
        assert!(candidates_for(&world, name).iter().any(|e| e.id == id), "{name}");
    }
}

#[test]
fn index_is_rebuilt_from_the_entities() {
    let mut world = World::new();
    create_entity(&mut world, "Mistral AI", "organization", double(0.8));
    let keys = world.keys.len();
    world.keys.clear();
    assert!(candidates_for(&world, "Mistral").is_empty());
    ensure_index(&mut world);
    assert_eq!(world.keys.len(), keys);
    assert_eq!(reindex_all(&mut world), 1);
    assert_eq!(world.keys.len(), keys);
}
