use enargeia::double::Double;
use enargeia::eval::{
    candidate_status, find_best, judged_type, measure, run, run_decorrelation, score_pairs, tally,
    write_millionths, EvalError, LabeledPair, Measures, Prf, Rated, SWEEP_STEPS,
};
use enargeia::matcher::{decide, Decision, Weights};
use enargeia::world::World;

fn double(x: f64) -> Double {
    Double { bits: x.to_bits() }
}

fn pair(mention: &str, candidate: &str, is_match: bool) -> LabeledPair {
    LabeledPair {
        mention: mention.to_string(),
        mention_type: None,
        candidate: candidate.to_string(),
        candidate_type: "organization".to_string(),
        candidate_aliases: Vec::new(),
        is_match,
    }
}

fn rate(p: &Prf) -> Measures {
    let ratio = |n: usize, d: usize| if d == 0 { 0.0 } else { n as f64 / d as f64 };
    let precision = ratio(p.tp, p.tp + p.fp);
    let recall = ratio(p.tp, p.tp + p.fn_);
    let f1 =
        if precision + recall == 0.0 { 0.0 } else { 2.0 * precision * recall / (precision + recall) };
    Measures { precision: double(precision), recall: double(recall), f1: double(f1) }
}

#[test]
fn every_pair_is_tallied_once() {
    let p = tally(&vec![true, true, false, false, true], &vec![true, false, true, false, true]);
    assert_eq!((p.tp, p.fp, p.fn_, p.tn), (2, 1, 1, 1));
}

#[test]
fn gated_names_score_below_everything() {
    let pairs = vec![pair("Mistral AI", "Mistral AI", true), pair("Mistral AI", "Mistral AI", true)];
    let ms = score_pairs(&pairs, &vec![true, false], &Weights::default());
    assert_eq!(decide(ms[0].total, &Weights::default()), Decision::Merge);
    assert_eq!(ms[1].total, -10_000_000);
    assert_eq!(ms[1].contributions.last().unwrap(), &("name_gate".to_string(), -10_000_000));
    assert_eq!(judged_type(&pairs[0]), "organization");
}

#[test]
fn report_of_an_evaluation() {
    let pairs = vec![
        pair("Mistral AI", "Mistral AI", true),
        pair("CoinShares", "Coinbase", false),
        pair("Acme", "Zebra Holdings", true),
    ];
    let w = Weights::default();
    let ms = score_pairs(&pairs, &vec![true, true, true], &w);
    let c = measure(&pairs, &ms, &w);
    assert_eq!(c.sweep.len(), SWEEP_STEPS);
    assert_eq!((c.probabilistic.tp, c.probabilistic.fp, c.probabilistic.fn_), (1, 0, 1));
    let q = Rated {
        baseline: rate(&c.baseline),
        probabilistic: rate(&c.probabilistic),
        merge_or_review: rate(&c.merge_or_review),
        review_percent: double(c.reviews as f64 / 3.0 * 100.0),
        sweep: c.sweep.iter().map(rate).collect(),
    };
    let out = run("2026-01-01 00:00 UTC", "eval/labels.jsonl", &pairs, &ms, &w, &c, &q, "{}");
    assert_eq!(out.pairs, 3);
    let md = out.report_md;
    assert!(md.starts_with(
        "# Matcher evaluation report\n\nGenerated 2026-01-01 00:00 UTC by `enargeia eval match` \
         from `eval/labels.jsonl`.\n\n**3 labeled pairs** — 2 matches, 1 non-matches. "
    ));
    assert!(md.contains("| Probabilistic: total ≥ 5.0 → merge | 1.000 | 0.500 | 0.667 | 1 |\n"));
    assert!(md.contains("| 12.0 | "));
    assert!(md.contains("## False negatives at default (labeled match, but rejected as new)\n\n- **Acme** → Zebra Holdings — total "));
    assert!(md.ends_with("\n## Weights used\n\n```json\n{}\n```\n"));
}

#[test]
fn best_threshold_is_the_last_of_the_best() {
    let m = |p: f64, f: f64| Measures { precision: double(p), recall: double(0.5), f1: double(f) };
    let ms = vec![m(0.5, 0.9), m(0.9, 0.7), m(0.9, 0.7), m(0.85, 0.6)];
    assert_eq!(find_best(&ms, false), Some(0));
    assert_eq!(find_best(&ms, true), Some(2));
    assert_eq!(find_best(&Vec::new(), false), None);
}

#[test]
fn rejected_match_is_never_proposed_again() {
    let mut world = World::new();
    let out = run_decorrelation(&mut world, &Weights::default(), "2026-01-01 00:00 UTC").unwrap();
    assert!(out.passed, "{}", out.report_md);
    assert!(out.report_md.starts_with(
        "# Decorrelation evaluation\n\nGenerated 2026-01-01 00:00 UTC by `enargeia eval decorrelation` \
         on a scratch database (regex extractor).\n\n## Step 1 — initial resolution\n\n3 items, 2 auto-merged mentions, "
    ), "{}", out.report_md);
    assert!(out.report_md.ends_with("## Result: PASS\n"));
    assert!(!out.report_md.contains("[FAIL]"));
    assert!(candidate_status(&world, "eval://s9", "Mistral").is_none());
    let s2 = candidate_status(&world, "eval://s2", "Mistral").unwrap();
    assert_ne!(s2.status, "needs_llm");
}

#[test]
fn evaluation_needs_the_mention() {
    // Merging nothing at all, the run still finds its mention and reports a failure.
    let strict = Weights::default().with_thresholds(Some(900_000_000), Some(800_000_000));
    let mut world = World::new();
    match run_decorrelation(&mut world, &strict, "now") {
        Ok(out) => {
            assert!(!out.passed);
            assert!(out.report_md.ends_with("## Result: FAIL\n"));
        }
        Err(e) => assert!(matches!(e, EvalError::NoMention | EvalError::Decision(_))),
    }
}

#[test]
fn scores_are_printed_as_floats() {
    assert_eq!(write_millionths(4_500_000), "4.5");
    assert_eq!(write_millionths(-10_000_000), "-10.0");
    assert_eq!(write_millionths(250_000), "0.25");
}
