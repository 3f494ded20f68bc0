use enargeia::matcher::{
    ascii_fold, decide, is_acronym, normalize, phonetic, phonetic_level, score, Candidate, Decision,
    MatchScore, Ratio, Weights, THRESHOLD_LIMIT,
};

fn cand<'a>(canonical: &'a str, aliases: &'a [String], t: &'a str) -> Candidate<'a> {
    Candidate {
        canonical,
        aliases,
        entity_type: t,
        cooc: Ratio { num: 0, den: 1 },
        corroboration: 0,
        recent: false,
    }
}

/// In millionths.
fn prior_sum(ms: &MatchScore) -> i64 {
    ms.contributions
        .iter()
        .filter(|(n, _)| matches!(n.as_str(), "cooc" | "corroboration" | "recent"))
        .map(|(_, v)| v)
        .sum()
}

#[test]
fn context_priors_confirm_but_never_rescue_or_carry() {
    let w = Weights::default();
    let strong_context = |canonical: &'static str, t: &'static str| Candidate {
        canonical,
        aliases: &[],
        entity_type: t,
        cooc: Ratio { num: 1, den: 1 },
        corroboration: 20,
        recent: true,
    };
    // A name that does not match gets no help from context at all.
    let ms = score(
        "OpenAI",
        Some("organization"),
        &strong_context("Open Source Initiative", "organization"),
        &w,
    );
    assert_eq!(prior_sum(&ms), 0, "{:?}", ms.contributions);
    assert_eq!(decide(ms.total, &w), Decision::New);

    // A review-band name gets context, but never more than the cap.
    let ms = score(
        "Circle",
        Some("organization"),
        &strong_context("Circle K", "organization"),
        &w,
    );
    assert!(prior_sum(&ms) > 0);
    assert!(
        prior_sum(&ms) <= w.prior_cap,
        "{:?}",
        ms.contributions
    );
    let raw = w.cooc[2] + w.corroboration[3] + w.recent;
    assert!(raw > w.prior_cap, "test assumes the cap binds");
}

#[test]
fn normalizes_punctuation_and_case() {
    assert_eq!(normalize("Rebecca.Bellan"), "rebecca bellan");
    assert_eq!(normalize("U.S."), "u s");
    assert_eq!(normalize("Meta Platforms, Inc."), "meta platforms inc");
    assert_eq!(normalize("AT&T"), "at and t");
}

#[test]
fn phonetic_survives_non_ascii() {
    assert!(!phonetic("Hegotá").is_empty());
    assert_eq!(phonetic("Hegotá"), phonetic("Hegota"));
    assert_eq!(phonetic("北京"), "");
    assert_eq!(ascii_fold("Meléndez"), "Melendez");
}

#[test]
fn company_and_eponymous_product_still_merge() {
    let w = Weights::default();
    let s = score(
        "Cursor",
        Some("product"),
        &cand("Cursor", &[], "organization"),
        &w,
    );
    assert_eq!(decide(s.total, &w), Decision::Merge, "{s:?}");
}

#[test]
fn suffix_variant_merges_but_division_reviews() {
    let w = Weights::default();
    let s = score(
        "Mistral",
        Some("organization"),
        &cand("Mistral AI", &[], "organization"),
        &w,
    );
    assert_eq!(decide(s.total, &w), Decision::Merge, "{s:?}");
    let s = score(
        "Google",
        Some("organization"),
        &cand("Google Cloud", &[], "organization"),
        &w,
    );
    assert_ne!(decide(s.total, &w), Decision::New, "{s:?}");
}

#[test]
fn similar_strings_different_entities_are_new() {
    let w = Weights::default();
    for (m, c) in [
        ("CoinShares", "Coinbase"),
        ("Christopher Waller", "Christopher Woolard"),
        ("Cognizant", "Cognition"),
        ("Metaplanet", "Meta"),
    ] {
        let s = score(m, Some("organization"), &cand(c, &[], "organization"), &w);
        assert_ne!(decide(s.total, &w), Decision::Merge, "{m} vs {c}: {s:?}");
    }
}

#[test]
fn acronyms() {
    let w = Weights::default();
    let s = score(
        "FTC",
        Some("organization"),
        &cand("Federal Trade Commission", &[], "organization"),
        &w,
    );
    assert_eq!(decide(s.total, &w), Decision::Merge, "{s:?}");
    let s = score(
        "U.S. Securities and Exchange Commission",
        Some("organization"),
        &cand("SEC", &[], "organization"),
        &w,
    );
    assert_eq!(decide(s.total, &w), Decision::Merge, "{s:?}");
    let s = score(
        "CFTC",
        Some("organization"),
        &cand("FTC", &[], "organization"),
        &w,
    );
    assert_eq!(decide(s.total, &w), Decision::New, "{s:?}");
    let s = score("ZCSH", Some("product"), &cand("Zcash", &[], "product"), &w);
    assert_ne!(decide(s.total, &w), Decision::Merge, "{s:?}");
}

#[test]
fn uppercase_alias_is_not_an_acronym_mismatch() {
    let w = Weights::default();
    let aliases = vec!["META".to_string()];
    let s = score(
        "Meta Platforms Inc.",
        Some("organization"),
        &cand("Meta", &aliases, "organization"),
        &w,
    );
    assert!(s.features.acronym >= 0, "{s:?}");
    assert_ne!(decide(s.total, &w), Decision::New, "{s:?}");
}

#[test]
fn surname_and_prefix_variants_reach_review() {
    let w = Weights::default();
    let s = score(
        "Amodei",
        Some("person"),
        &cand("Dario Amodei", &[], "person"),
        &w,
    );
    assert_ne!(decide(s.total, &w), Decision::New, "{s:?}");
    let s = score(
        "US Federal Reserve",
        Some("organization"),
        &cand("Federal Reserve", &[], "organization"),
        &w,
    );
    assert_ne!(decide(s.total, &w), Decision::New, "{s:?}");
}

#[test]
fn exact_name_with_hard_type_conflict_is_not_auto_merged() {
    let w = Weights::default();
    let s = score(
        "Mercury",
        Some("product"),
        &cand("Mercury", &[], "location"),
        &w,
    );
    assert_ne!(decide(s.total, &w), Decision::Merge, "{s:?}");
}

#[test]
fn dotted_handle_matches_person() {
    let w = Weights::default();
    let s = score(
        "rebecca.bellan",
        Some("person"),
        &cand("Rebecca Bellan", &[], "person"),
        &w,
    );
    assert_eq!(decide(s.total, &w), Decision::Merge, "{s:?}");
    let s = score(
        "Anthony",
        Some("person"),
        &cand("Anthony Ha", &[], "person"),
        &w,
    );
    assert_ne!(decide(s.total, &w), Decision::Merge, "{s:?}");
}

#[test]
fn alias_resolves_short_form() {
    let w = Weights::default();
    let aliases = vec!["Andreessen Horowitz".to_string()];
    let s = score(
        "Andreessen Horowitz",
        Some("organization"),
        &cand("a16z", &aliases, "organization"),
        &w,
    );
    assert_eq!(decide(s.total, &w), Decision::Merge, "{s:?}");
}

#[test]
fn thresholds_decide() {
    let w = Weights::default();
    assert_eq!(decide(5_000_000, &w), Decision::Merge);
    assert_eq!(decide(4_999_999, &w), Decision::Review);
    assert_eq!(decide(1_000_000, &w), Decision::Review);
    assert_eq!(decide(999_999, &w), Decision::New);
    let strict = w.with_thresholds(Some(8_000_000), None);
    assert_eq!(decide(5_000_000, &strict), Decision::Review);
}

#[test]
fn exact_name_of_one_type_merges() {
    let names: Vec<String> = Vec::new();
    let c = cand("Recorded Future", &names, "organization");
    let w = Weights::default();
    let ms = score("recorded future", Some("organization"), &c, &w);
    assert_eq!(decide(ms.total, &w), Decision::Merge);
    assert_eq!(ms.total, ms.contributions.iter().map(|(_, v)| *v).sum::<i64>());
}

#[test]
fn short_forms_are_acronyms() {
    for t in ["FTC", "U.S.", "a16z", "k8s", "AT&T", " SEC "] {
        assert!(is_acronym(t), "{t}");
    }
    for t in ["apple", "web3", "3M", "Fed", "a16", "16z", "a-z", "", "SEMICONDUCTOR"] {
        assert!(!is_acronym(t), "{t}");
    }
}

fn list(ts: &[&str]) -> Vec<String> {
    ts.iter().map(|t| t.to_string()).collect()
}

#[test]
fn numbers_sound_like_themselves_only() {
    let a = list(&["windows", "11"]);
    let b = list(&["windows"]);
    assert_eq!(phonetic_level(&a, &b), 1);
    assert_eq!(phonetic_level(&b, &a), 1);
    assert_eq!(phonetic_level(&a, &a), 2);
    assert_eq!(phonetic_level(&a, &list(&["windows", "10"])), 0);
    assert_eq!(phonetic_level(&list(&["smith"]), &list(&["smyth"])), 2);
    assert_eq!(phonetic_level(&list(&["11"]), &list(&["11"])), 0);
    assert_eq!(phonetic_level(&list(&[]), &b), 0);
}

#[test]
fn normalizing_again_changes_nothing() {
    for t in ["  AT&T,  Inc. ", "Hegotá / Labs", "---", "U.S.  Steel"] {
        let n = normalize(t);
        assert_eq!(normalize(&n), n);
        assert!(!n.starts_with(' ') && !n.ends_with(' ') && !n.contains("  "), "{n:?}");
    }
    assert_eq!(normalize("  AT&T,  Inc. "), "at and t inc");
    assert_eq!(normalize(&"  AT&T,  Inc. ".to_ascii_uppercase()), "at and t inc");
}

#[test]
fn thresholds_keep_their_value() {
    let far = 2_000_000_000_000;
    let w = Weights::default().with_thresholds(Some(far), Some(-far));
    assert_eq!((w.upper, w.lower), (far, -far));
    let w = Weights::default().with_thresholds(Some(i64::MAX), Some(i64::MIN));
    assert_eq!((w.upper, w.lower), (THRESHOLD_LIMIT, -THRESHOLD_LIMIT));
}

#[test]
fn context_stops_below_the_merge_threshold() {
    let none: Vec<String> = Vec::new();
    let w = Weights::default();
    let bare = score("Circle", Some("organization"), &cand("Circle K", &none, "organization"), &w);
    assert_eq!(decide(bare.total, &w), Decision::Review, "{bare:?}");
    let c = Candidate {
        cooc: Ratio { num: 1, den: 1 },
        corroboration: 20,
        recent: true,
        ..cand("Circle K", &none, "organization")
    };
    let near = w.clone().with_thresholds(Some(bare.total + 500_000), None);
    let ms = score("Circle", Some("organization"), &c, &near);
    assert_eq!(ms.total, bare.total + 499_999, "{ms:?}");
    assert_eq!(decide(ms.total, &near), Decision::Review);
    let far = w.clone().with_thresholds(Some(bare.total + 9_000_000), None);
    let ms = score("Circle", Some("organization"), &c, &far);
    assert_eq!(ms.total, bare.total + w.prior_cap);
    let met = w.clone().with_thresholds(Some(bare.total), None);
    let ms = score("Circle", Some("organization"), &c, &met);
    assert_eq!(ms.total, bare.total + w.prior_cap);
    assert_eq!(decide(ms.total, &met), Decision::Merge);
}
