//! Enrichment: what becomes of the proposals of a model.

use vstd::prelude::*;

use crate::ground::grounded;
use crate::json::Json;
use crate::laws::lists::lemma_push_has;
use crate::laws::relations::says;
use crate::laws::texts::law_trim_takes_outer_blanks;
use crate::llm_enrich::{
    enriched_world, entity_named, entity_parts, first_text, grounded_relations, proposal,
    proposals, relation, relation_name, relation_parts, relations, snippet_of, trimmed_some,
    type_named, waiting_items, with_entities, with_relations, EnrichState, EnrichStats, ExtractionModel,
    ProposalModel, RelationModel,
};
use crate::matcher::Weights;
use crate::models::{CandidateModel, EdgeModel, SourceModel};
use crate::resolve::{law_history_is_kept, law_valid_time_is_earliest};
use crate::text::{is_space, lowercase, trim};
use crate::world::{StampModel, WorldModel};

verus! {

// ---------------------------------------------------------------------------------------------
// Reading a reply

/// What is made of a proposed entity. It needs a mention or a canonical name, and each stands in for
/// the other. Its type is in lower case. Its confidence is brought between zero and one, and is 0.6
/// where none is given.
pub proof fn law_proposals_are_completed(item: Json)
    ensures
        ({
            let (mention, canonical, kind, confidence) = entity_parts(item);
            let p = proposal(item);
            &&& p is Some <==> mention is Some || canonical is Some
            &&& mention is Some ==> p->0.mention == mention->0
            &&& mention is None && canonical is Some ==> p->0.mention == canonical->0
            &&& canonical is Some ==> p->0.canonical_name == canonical->0
            &&& canonical is None && mention is Some ==> p->0.canonical_name == mention->0
            &&& p is Some && kind is Some ==> p->0.entity_type == lowercase(kind->0)
            &&& p is Some && kind is None ==> p->0.entity_type == lowercase("other"@)
            &&& p is Some && confidence is None ==> p->0.confidence.bits == 0x3fe3333333333333
            &&& p is Some ==> 0 <= p->0.confidence.rank() <= 0x3ff0000000000000
            &&& p is Some && confidence is Some && 0 <= confidence->0.rank() <= 0x3ff0000000000000
                ==> p->0.confidence == confidence->0
        }),
{
}

/// What an object says of an entity: the text of the first of its fields that has one, without the
/// blanks around it, and nothing where only blanks stand there.
pub proof fn law_fields_of_an_entity(item: Json)
    requires
        item is Object,
    ensures
        ({
            let (mention, canonical, kind, _) = entity_parts(item);
            &&& mention == read_of(item, "mention"@, read_of(item, "text"@, read_of(
                item,
                "name"@,
                None,
            )))
            &&& canonical == read_of(item, "canonical_name"@, read_of(
                item,
                "canonical"@,
                read_of(item, "name"@, None),
            ))
            &&& kind == read_of(item, "entity_type"@, read_of(item, "type"@, read_of(
                item,
                "label"@,
                None,
            )))
            &&& mention is Some ==> is_bare(mention->0)
            &&& canonical is Some ==> is_bare(canonical->0)
            &&& kind is Some ==> is_bare(kind->0)
        }),
{
    lemma_three_fields(item, "mention"@, "text"@, "name"@);
    lemma_three_fields(item, "canonical_name"@, "canonical"@, "name"@);
    lemma_three_fields(item, "entity_type"@, "type"@, "label"@);
}

/// The text in the field, without the blanks around it; `other` where no text stands there.
pub open spec fn read_of(item: Json, field: Seq<char>, other: Option<Seq<char>>) -> Option<
    Seq<char>,
> {
    match crate::json::text_in(item.field(field)) {
        Some(t) => if exists|k: int| 0 <= k < t.len() && !is_space(#[trigger] t[k]) {
            Some(trim(t))
        } else {
            None
        },
        None => other,
    }
}

/// The text is not empty and has no blanks around it.
pub open spec fn is_bare(t: Seq<char>) -> bool {
    t.len() > 0 && !is_space(t[0]) && !is_space(t.last())
}

proof fn lemma_trimmed(t: Seq<char>)
    ensures
        trim(t).len() > 0 <==> exists|k: int| 0 <= k < t.len() && !is_space(#[trigger] t[k]),
        trim(t).len() > 0 ==> is_bare(trim(t)),
{
    law_trim_takes_outer_blanks(t);
    let (i, j) = choose|i: int, j: int|
        #![trigger t.subrange(i, j)]
        0 <= i <= j <= t.len() && trim(t) == t.subrange(i, j) && (forall|k: int|
            (0 <= k < i || j <= k < t.len()) ==> is_space(#[trigger] t[k]));
    if trim(t).len() > 0 {
        assert(trim(t)[0] == t[i]);
    }
}

proof fn lemma_three_fields(item: Json, a: Seq<char>, b: Seq<char>, c: Seq<char>)
    ensures
        ({
            let r = trimmed_some(first_text(item, seq![a, b, c]));
            &&& r == read_of(item, a, read_of(item, b, read_of(item, c, None)))
            &&& r is Some ==> is_bare(r->0)
        }),
{
    reveal_with_fuel(first_text, 4);
    assert(seq![a, b, c].drop_first() =~= seq![b, c]);
    assert(seq![b, c].drop_first() =~= seq![c]);
    assert(seq![c].drop_first() =~= seq![]);
    if let Some(t) = first_text(item, seq![a, b, c]) {
        lemma_trimmed(t);
    }
}

proof fn lemma_four_fields(item: Json, a: Seq<char>, b: Seq<char>, c: Seq<char>, d: Seq<char>)
    ensures
        ({
            let r = trimmed_some(first_text(item, seq![a, b, c, d]));
            &&& r == read_of(item, a, read_of(item, b, read_of(item, c, read_of(item, d, None))))
            &&& r is Some ==> is_bare(r->0)
        }),
{
    assert(seq![a, b, c, d].drop_first() =~= seq![b, c, d]);
    lemma_three_fields(item, b, c, d);
    if let Some(t) = crate::json::text_in(item.field(a)) {
        lemma_trimmed(t);
    }
}

/// What an object says of a relation is read in the same way; all three parts are needed.
pub proof fn law_fields_of_a_relation(item: Json)
    requires
        item is Object,
    ensures
        ({
            let a = read_of(item, "a"@, read_of(item, "from"@, read_of(
                item,
                "subject"@,
                read_of(item, "source"@, None),
            )));
            let b = read_of(item, "b"@, read_of(item, "to"@, read_of(
                item,
                "object"@,
                read_of(item, "target"@, None),
            )));
            let t = read_of(item, "relation_type"@, read_of(item, "relation"@, read_of(
                item,
                "type"@,
                read_of(item, "predicate"@, None),
            )));
            &&& relation_parts(item) == (a, b, t)
            &&& relation(item) is Some <==> a is Some && b is Some && t is Some
            &&& relation(item) matches Some(r) ==> a == Some(r.a) && b == Some(r.b) && is_bare(
                r.a,
            ) && is_bare(r.b)
        }),
{
    lemma_four_fields(item, "a"@, "from"@, "subject"@, "source"@);
    lemma_four_fields(item, "b"@, "to"@, "object"@, "target"@);
    lemma_four_fields(item, "relation_type"@, "relation"@, "type"@, "predicate"@);
}

/// A list of items is read item by item, in order; those that cannot be read are left out.
pub proof fn law_items_are_read_in_order(items: Seq<Json>, item: Json)
    ensures
        proposals(items.push(item)) == match proposal(item) {
            Some(p) => proposals(items).push(p),
            None => proposals(items),
        },
        relations(items.push(item)) == match relation(item) {
            Some(r) => relations(items).push(r),
            None => relations(items),
        },
        proposals(seq![]).len() == 0,
        relations(seq![]).len() == 0,
{
    assert(items.push(item).drop_last() =~= items);
}

/// A relation is read with both of its ends and its type, or not at all; its ends are kept in their
/// order.
pub proof fn law_relations_are_read_whole(item: Json)
    ensures
        ({
            let (a, b, t) = relation_parts(item);
            match relation(item) {
                Some(r) => a == Some(r.a) && b == Some(r.b) && t is Some && r.relation_type
                    == relation_name(t->0),
                None => a is None || b is None || t is None,
            }
        }),
        relation_name(seq![]).len() <= 48,
{
    crate::llm_enrich::law_relation_names_are_bounded(seq![]);
}

/// The first of several fields that holds a text is taken.
pub proof fn law_first_text_field(j: Json, names: Seq<Seq<char>>)
    ensures
        match first_text(j, names) {
            Some(t) => exists|k: int|
                0 <= k < names.len() && crate::json::text_in(j.field(#[trigger] names[k])) == Some(t)
                    && forall|i: int|
                    0 <= i < k ==> crate::json::text_in(j.field(#[trigger] names[i])) is None,
            None => forall|i: int|
                0 <= i < names.len() ==> crate::json::text_in(j.field(#[trigger] names[i])) is None,
        },
    decreases names.len(),
{
    if names.len() > 0 {
        if crate::json::text_in(j.field(names[0])) is None {
            let rest = names.drop_first();
            law_first_text_field(j, rest);
            match first_text(j, rest) {
                Some(t) => {
                    let k = choose|k: int|
                        0 <= k < rest.len() && crate::json::text_in(j.field(#[trigger] rest[k]))
                            == Some(t) && forall|i: int|
                            0 <= i < k ==> crate::json::text_in(
                                j.field(#[trigger] rest[i]),
                            ) is None;
                    assert(names[k + 1] == rest[k]);
                    assert forall|i: int| 0 <= i < k + 1 implies crate::json::text_in(
                        j.field(#[trigger] names[i]),
                    ) is None by {
                        if i > 0 {
                            assert(rest[i - 1] == names[i]);
                        }
                    }
                },
                None => {
                    assert forall|i: int| 0 <= i < names.len() implies crate::json::text_in(
                        j.field(#[trigger] names[i]),
                    ) is None by {
                        if i > 0 {
                            assert(rest[i - 1] == names[i]);
                        }
                    }
                },
            }
        } else {
            assert(crate::json::text_in(j.field(names[0])) == first_text(j, names));
        }
    }
}

// ---------------------------------------------------------------------------------------------
// Grounding

/// The type of a name is that of the last proposal that has it as its mention or its canonical
/// name, whatever the case; "other" where none has.
pub proof fn law_types_of_names(ps: Seq<ProposalModel>, name: Seq<char>, k: int)
    requires
        0 <= k < ps.len(),
        lowercase(ps[k].mention) == lowercase(name) || lowercase(ps[k].canonical_name)
            == lowercase(name),
        forall|i: int|
            k < i < ps.len() ==> lowercase((#[trigger] ps[i]).mention) != lowercase(name)
                && lowercase(ps[i].canonical_name) != lowercase(name),
    ensures
        type_named(ps, name) == ps[k].entity_type,
        type_named(seq![], name) == "other"@,
    decreases ps.len(),
{
    if k < ps.len() - 1 {
        let most = ps.drop_last();
        assert(ps[ps.len() - 1] == ps.last());
        assert forall|i: int| k < i < most.len() implies lowercase((#[trigger] most[i]).mention)
            != lowercase(name) && lowercase(most[i].canonical_name) != lowercase(name) by {
            assert(most[i] == ps[i]);
        }
        law_types_of_names(most, name, k);
    }
}

/// Of the proposed relations those stay that the text bears out, and no others.
pub proof fn law_grounded_relations_stay(
    ps: Seq<ProposalModel>,
    rs: Seq<RelationModel>,
    text: Seq<char>,
    r: RelationModel,
)
    ensures
        grounded_relations(ps, rs, text).contains(r) <==> rs.contains(r) && grounded(
            text,
            r.a,
            r.b,
            r.relation_type,
            type_named(ps, r.a),
            type_named(ps, r.b),
        ),
        grounded_relations(ps, rs, text).len() <= rs.len(),
    decreases rs.len(),
{
    if rs.len() > 0 {
        let most = rs.drop_last();
        law_grounded_relations_stay(ps, most, text, r);
        assert(rs =~= most.push(rs.last()));
        lemma_push_has(most, rs.last(), r);
        lemma_push_has(grounded_relations(ps, most, text), rs.last(), r);
    }
}

// ---------------------------------------------------------------------------------------------
// The queue

/// The items that wait for a model are those with a mention that needs one, each once.
pub proof fn law_items_wait_once(cs: Seq<CandidateModel>, id: Seq<char>)
    ensures
        waiting_items(cs).contains(id) <==> exists|i: int|
            0 <= i < cs.len() && (#[trigger] cs[i]).status == "needs_llm"@ && cs[i].source_item_id
                == id,
        waiting_items(cs).no_duplicates(),
    decreases cs.len(),
{
    if cs.len() > 0 {
        let most = cs.drop_last();
        let last = cs.last();
        law_items_wait_once(most, id);
        lemma_push_has(waiting_items(most), last.source_item_id, id);
        assert(cs[cs.len() - 1] == last);
        assert forall|i: int| 0 <= i < most.len() implies #[trigger] cs[i] == most[i] by {}
        if waiting_items(most).contains(id) {
            let i = choose|i: int|
                0 <= i < most.len() && (#[trigger] most[i]).status == "needs_llm"@
                    && most[i].source_item_id == id;
            assert(cs[i] == most[i]);
        }
        if last.status == "needs_llm"@ && waiting_items(most).contains(last.source_item_id)
            && last.source_item_id == id {
        }
    } else {
        assert(!waiting_items(cs).contains(id));
    }
}

/// A model sees the first four thousand characters of a text.
pub proof fn law_snippet_is_the_beginning(text: Seq<char>)
    ensures
        snippet_of(text).len() <= 4000,
        text.len() <= 4000 ==> snippet_of(text) == text,
        text.len() > 4000 ==> snippet_of(text) == text.take(4000),
{
}

// ---------------------------------------------------------------------------------------------
// Applying a reply

proof fn lemma_entity_named(names: Seq<(Seq<char>, Seq<char>)>, name: Seq<char>)
    ensures
        entity_named(names, name) is Some <==> exists|i: int|
            0 <= i < names.len() && (#[trigger] names[i]).0 == name,
    decreases names.len(),
{
    if names.len() > 0 {
        let most = names.drop_last();
        lemma_entity_named(most, name);
        assert(names[names.len() - 1] == names.last());
        assert forall|i: int| 0 <= i < most.len() implies #[trigger] names[i] == most[i] by {}
        if entity_named(most, name) is Some {
            let i = choose|i: int| 0 <= i < most.len() && (#[trigger] most[i]).0 == name;
            assert(names[i] == most[i]);
        }
    }
}

/// Which entity a name means: the one that was noted last under it.
pub proof fn law_last_entity_of_the_name_is_meant(
    names: Seq<(Seq<char>, Seq<char>)>,
    name: Seq<char>,
    k: int,
)
    requires
        0 <= k < names.len(),
        names[k].0 == name,
        forall|i: int| k < i < names.len() ==> (#[trigger] names[i]).0 != name,
    ensures
        entity_named(names, name) == Some(names[k].1),
    decreases names.len(),
{
    if k < names.len() - 1 {
        let most = names.drop_last();
        assert(names[names.len() - 1] == names.last());
        assert forall|i: int| k < i < most.len() implies (#[trigger] most[i]).0 != name by {
            assert(names[i] == most[i]);
        }
        law_last_entity_of_the_name_is_meant(most, name, k);
    }
}

/// Both names of every proposed entity are known when the relations are recorded, and the last one
/// counts where a name is proposed twice.
pub proof fn law_proposed_names_are_known(
    st: EnrichState,
    ps: Seq<ProposalModel>,
    weights: Weights,
    stamps: Seq<StampModel>,
    k: int,
)
    requires
        0 <= k < ps.len(),
    ensures
        ({
            let names = with_entities(st, ps, weights, stamps).names;
            &&& entity_named(names, lowercase(ps[k].mention)) is Some
            &&& entity_named(names, lowercase(ps[k].canonical_name)) is Some
        }),
    decreases ps.len(),
{
    let names = with_entities(st, ps, weights, stamps).names;
    lemma_known(st, ps, weights, stamps, k);
    lemma_entity_named(names, lowercase(ps[k].mention));
    lemma_entity_named(names, lowercase(ps[k].canonical_name));
}

proof fn lemma_known(
    st: EnrichState,
    ps: Seq<ProposalModel>,
    weights: Weights,
    stamps: Seq<StampModel>,
    k: int,
)
    requires
        0 <= k < ps.len(),
    ensures
        ({
            let names = with_entities(st, ps, weights, stamps).names;
            &&& exists|i: int| 0 <= i < names.len() && (#[trigger] names[i]).0 == lowercase(
                ps[k].mention,
            )
            &&& exists|i: int| 0 <= i < names.len() && (#[trigger] names[i]).0 == lowercase(
                ps[k].canonical_name,
            )
        }),
    decreases ps.len(),
{
    let most = ps.drop_last();
    let before = with_entities(st, most, weights, stamps).names;
    let names = with_entities(st, ps, weights, stamps).names;
    let n = before.len() as int;
    if k < most.len() {
        assert(most[k] == ps[k]);
        lemma_known(st, most, weights, stamps, k);
        let i = choose|i: int| 0 <= i < n && (#[trigger] before[i]).0 == lowercase(ps[k].mention);
        assert(names[i] == before[i]);
        let j = choose|j: int|
            0 <= j < n && (#[trigger] before[j]).0 == lowercase(ps[k].canonical_name);
        assert(names[j] == before[j]);
    } else {
        assert(names[n].0 == lowercase(ps[k].mention));
        assert(names[n + 1].0 == lowercase(ps[k].canonical_name));
    }
}

/// Some edge says that the one stands in the relation to the other.
pub open spec fn is_said(es: Seq<EdgeModel>, a: Seq<char>, b: Seq<char>, t: Seq<char>) -> bool {
    exists|i: int| 0 <= i < es.len() && says(#[trigger] es[i], a, b, t)
}

/// A relation between two known names that stand for two entities is recorded as an edge from the
/// one to the other.
pub proof fn law_known_relations_are_recorded(
    st: EnrichState,
    rs: Seq<RelationModel>,
    item_id: Seq<char>,
    observed_at: Seq<char>,
    stamps: Seq<StampModel>,
    k: int,
    a: Seq<char>,
    b: Seq<char>,
)
    requires
        0 <= k < rs.len(),
        entity_named(st.names, lowercase(rs[k].a)) == Some(a),
        entity_named(st.names, lowercase(rs[k].b)) == Some(b),
        a != b,
    ensures
        is_said(
            with_relations(st, rs, item_id, observed_at, stamps).world.edges,
            a,
            b,
            rs[k].relation_type,
        ),
    decreases rs.len(),
{
    let most = rs.drop_last();
    let n = rs.len() - 1;
    let last = rs.last();
    let before = with_relations(st, most, item_id, observed_at, stamps);
    let after = with_relations(st, rs, item_id, observed_at, stamps);
    lemma_names_stay(st, most, item_id, observed_at, stamps);
    let t = rs[k].relation_type;
    if k < n {
        assert(most[k] == rs[k]);
        law_known_relations_are_recorded(st, most, item_id, observed_at, stamps, k, a, b);
        let i = choose|i: int|
            0 <= i < before.world.edges.len() && says(#[trigger] before.world.edges[i], a, b, t);
        if let (Some(x), Some(y)) = (
            entity_named(before.names, lowercase(last.a)),
            entity_named(before.names, lowercase(last.b)),
        ) {
            law_history_is_kept(
                before.world.edges,
                x,
                y,
                last.relation_type,
                item_id,
                observed_at,
                stamps[n],
                i,
            );
            assert(says(after.world.edges[i], a, b, t));
        }
    } else {
        law_valid_time_is_earliest(
            before.world.edges,
            a,
            b,
            t,
            item_id,
            observed_at,
            stamps[n],
        );
        let at = crate::resolve::stated_at(before.world.edges, a, b, t);
        assert(says(after.world.edges[at], a, b, t));
    }
}

proof fn lemma_names_stay(
    st: EnrichState,
    rs: Seq<RelationModel>,
    item_id: Seq<char>,
    observed_at: Seq<char>,
    stamps: Seq<StampModel>,
)
    ensures
        ({
            let after = with_relations(st, rs, item_id, observed_at, stamps);
            &&& after.names == st.names
            &&& after.world == (WorldModel { edges: after.world.edges, ..st.world })
        }),
    decreases rs.len(),
{
    if rs.len() > 0 {
        lemma_names_stay(st, rs.drop_last(), item_id, observed_at, stamps);
    }
}

proof fn lemma_entities_frame(
    st: EnrichState,
    ps: Seq<ProposalModel>,
    weights: Weights,
    stamps: Seq<StampModel>,
)
    ensures
        ({
            let after = with_entities(st, ps, weights, stamps).world;
            after == (WorldModel { entities: after.entities, keys: after.keys, ..st.world })
        }),
    decreases ps.len(),
{
    if ps.len() > 0 {
        lemma_entities_frame(st, ps.drop_last(), weights, stamps);
    }
}

/// After a reply was applied the item is resolved, and so are those of its mentions that needed a
/// model; no other item and no other mention changes.
pub proof fn law_reply_settles_its_item(
    w: WorldModel,
    stats: EnrichStats,
    item_id: Seq<char>,
    observed_at: Seq<char>,
    x: ExtractionModel,
    weights: Weights,
    es: Seq<StampModel>,
    ls: Seq<StampModel>,
    i: int,
)
    ensures
        ({
            let after = enriched_world(w, stats, item_id, observed_at, x, weights, es, ls).0;
            &&& after.candidates.len() == w.candidates.len()
            &&& 0 <= i < w.candidates.len() ==> if w.candidates[i].source_item_id == item_id
                && w.candidates[i].status == "needs_llm"@ {
                after.candidates[i] == (CandidateModel { status: "resolved"@, ..w.candidates[i] })
            } else {
                after.candidates[i] == w.candidates[i]
            }
            &&& after.source_items.len() == w.source_items.len()
            &&& 0 <= i < w.source_items.len() ==> if w.source_items[i].id == item_id {
                after.source_items[i] == (SourceModel {
                    status: "resolved"@,
                    ..w.source_items[i]
                })
            } else {
                after.source_items[i] == w.source_items[i]
            }
            &&& after.decisions == w.decisions
            &&& after.decorrelations == w.decorrelations
            &&& after.geo == w.geo
        }),
{
    let st = EnrichState { world: w, names: seq![], stats };
    lemma_entities_frame(st, x.entities, weights, es);
    lemma_names_stay(
        with_entities(st, x.entities, weights, es),
        x.relations,
        item_id,
        observed_at,
        ls,
    );
}

/// What is read of a reply: the entities and the relations of its two lists, none of a list that is
/// not there.
pub proof fn law_reply_is_read_by_its_lists(v: Json)
    ensures
        ({
            let x = crate::llm_enrich::extraction(v);
            let (es, rs) = (
                crate::json::items_in(v.field("entities"@)),
                crate::json::items_in(v.field("relations"@)),
            );
            &&& es is Some ==> x.entities == proposals(es->0)
            &&& es is None ==> x.entities.len() == 0
            &&& rs is Some ==> x.relations == relations(rs->0)
            &&& rs is None ==> x.relations.len() == 0
        }),
{
}

/// Ungrounded relations are counted one by one.
pub proof fn law_ungrounded_are_counted(stats: EnrichStats, n: int)
    requires
        0 <= n,
        stats.ungrounded + n <= usize::MAX,
    ensures
        crate::llm_enrich::with_ungrounded(stats, n) == (EnrichStats {
            ungrounded: (stats.ungrounded + n) as usize,
            ..stats
        }),
{
}

} // verus!
