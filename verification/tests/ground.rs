use enargeia::ground::{occurring_name, relation_grounded, sentence_bounds};

const TEXT: &str = "OpenAI said on Tuesday that Sam Altman, its chief executive, will testify. \
Separately, Samsung Electronics reported quarterly earnings that beat estimates. \
Later in the piece: Rockset, the analytics database startup, was acquired by OpenAI last year for an undisclosed sum.";

fn t() -> String {
    TEXT.to_lowercase()
}

#[test]
fn accepts_cued_nearby_relations() {
    assert!(relation_grounded(
        &t(),
        "Sam Altman",
        "OpenAI",
        "ceo_of",
        "person",
        "organization"
    ));
    assert!(relation_grounded(
        &t(),
        "OpenAI",
        "Rockset",
        "acquired",
        "organization",
        "organization"
    ));
}

#[test]
fn rejects_uncued_or_far_or_ill_typed() {
    // Both grounded, but nothing says Samsung bought anything.
    assert!(!relation_grounded(
        &t(),
        "Samsung Electronics",
        "OpenAI",
        "acquired",
        "organization",
        "organization"
    ));
    // An organization cannot be someone's CEO.
    assert!(!relation_grounded(
        &t(),
        "Microsoft",
        "OpenAI",
        "ceo_of",
        "organization",
        "organization"
    ));
    // A person cannot be acquired.
    assert!(!relation_grounded(
        &t(),
        "OpenAI",
        "Sam Altman",
        "acquired",
        "organization",
        "person"
    ));
    // Not in the text at all.
    assert!(!relation_grounded(
        &t(),
        "Anthropic",
        "OpenAI",
        "partner_of",
        "organization",
        "organization"
    ));
}

#[test]
fn role_may_sit_one_sentence_from_its_organization() {
    let t = "In one month, half of the Braintrust team moved to Codex. For founder and CEO Ankur Goyal, the biggest change is speed.".to_lowercase();
    assert!(relation_grounded(
        &t,
        "Ankur Goyal",
        "Braintrust",
        "ceo_of",
        "person",
        "organization"
    ));
    // But an acquisition claimed across a sentence boundary is not accepted.
    let t2 =
        "Samsung Electronics reported earnings. Rockset was acquired by OpenAI.".to_lowercase();
    assert!(!relation_grounded(
        &t2,
        "Samsung Electronics",
        "OpenAI",
        "acquired",
        "organization",
        "organization"
    ));
    assert!(relation_grounded(
        &t2,
        "OpenAI",
        "Rockset",
        "acquired",
        "organization",
        "organization"
    ));
}

#[test]
fn uncued_relation_types_need_only_proximity() {
    assert!(relation_grounded(
        &t(),
        "Sam Altman",
        "OpenAI",
        "related_to",
        "person",
        "organization"
    ));
    assert_eq!(
        occurring_name(&t(), &["Rockset Inc", "Rockset"]),
        Some("Rockset")
    );
}

#[test]
fn names_must_stand_near_each_other() {
    let far = format!("acme partner {} beta", "x".repeat(500));
    assert!(!relation_grounded(&far, "Acme", "Beta", "partner_of", "organization", "organization"));
    let near = "acme and beta signed a partner agreement";
    assert!(relation_grounded(near, "Acme", "Beta", "partner_of", "organization", "organization"));
    assert!(!relation_grounded(near, "Acme", "Gamma", "partner_of", "organization", "organization"));
}

#[test]
fn first_name_that_occurs_is_taken() {
    assert_eq!(occurring_name("acme bought beta", &["Gamma", "BETA", "acme"]), Some("BETA"));
    assert_eq!(occurring_name("acme bought beta", &["Gamma"]), None);
}

#[test]
fn distance_counts_characters() {
    let near = |n: usize| {
        let text = format!("acme{}beta", "é".repeat(n));
        relation_grounded(&text, "Acme", "Beta", "related_to", "organization", "organization")
    };
    assert!(near(250));
    assert!(near(396));
    assert!(!near(397));
}

#[test]
fn folded_names_are_grounded_alike() {
    let grounded = |a: &str, b: &str| {
        relation_grounded(&t(), a, b, "ceo_of", "person", "organization")
    };
    assert!(grounded(" Sam Altman ", "OpenAI"));
    assert!(grounded("sam altman", "openai"));
    assert!(!grounded("OpenAI", "openai"));
}

#[test]
fn every_place_of_a_sentence_has_its_bounds() {
    let text = "One é. Two 3.5 here! Three\nFour";
    let sentences = [(0, 6), (7, 20), (21, 27), (28, 32)];
    for (lo, hi) in sentences {
        for pos in lo..=hi {
            assert_eq!(sentence_bounds(text, pos), (lo, hi), "{pos}");
        }
    }
    assert_eq!(sentence_bounds("", 0), (0, 0));
}
