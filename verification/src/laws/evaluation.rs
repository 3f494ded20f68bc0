//! Evaluation: what the counts of an evaluation count, and when the trial of the guarantee passes.

use vstd::prelude::*;

use crate::double::{fixed, tenths};
use crate::eval::{
    attempted, best_at, best_text, headline, latest_mention, merged_into, met, pair_line,
    pair_match, predicts, preface, report_text, row_text, section_pairs, section_text,
    sections_text, sweep_row, sweep_text, unresolved, EvalCounts, Measures, PairModel, Prf, Rated,
    Rule, Section, TrialModel, SWEEP_STEP,
};
use crate::laws::lists::{lemma_ranked, lists_highest_first};
use crate::laws::writing::{lemma_flat_holds, lemma_within, lemma_within_part};
use crate::matcher::{decision, Decision, MatchModel, Weights};
use crate::models::CandidateModel;
use crate::resolve::{has_pair, ordered};
use crate::table::places;
use crate::text::{before, decimal, flat, occurs};
use crate::why::parts_text;
use crate::world::{entity_of, item_of, WorldModel};

verus! {

/// One pair more counts for the prediction and the label that it has, and for no other.
pub proof fn law_pairs_count_by_one(
    predicted: Seq<bool>,
    labels: Seq<bool>,
    p: bool,
    l: bool,
    x: bool,
    y: bool,
)
    requires
        predicted.len() == labels.len(),
    ensures
        met(predicted.push(p), labels.push(l), x, y) == met(predicted, labels, x, y) + if p == x && l
            == y {
            1int
        } else {
            0
        },
        met(seq![], seq![], x, y) == 0,
{
    assert(predicted.push(p).drop_last() =~= predicted);
    assert(labels.push(l).drop_last() =~= labels);
}

/// What the rules predict: the baseline goes by a similarity of 0.87, the matcher by its decision,
/// and a threshold by the total; whoever merges also merges or asks.
pub proof fn law_rules_predict(m: MatchModel, w: Weights, t: i64, u: i64)
    ensures
        predicts(Rule::Similar, m, w) <==> m.features.name_jw.rank() >= 0x3febd70a3d70a3d7,
        predicts(Rule::Merges, m, w) <==> m.total >= w.upper,
        predicts(Rule::Merges, m, w) ==> predicts(Rule::MergesOrAsks, m, w),
        predicts(Rule::MergesOrAsks, m, w) <==> m.total >= w.upper || m.total >= w.lower,
        predicts(Rule::Reaches(t), m, w) <==> m.total >= t,
        t <= u && predicts(Rule::Reaches(u), m, w) ==> predicts(Rule::Reaches(t), m, w),
{
}

/// A pair whose mention is no plausible name scores ten points below zero; another one scores as
/// the matcher says, without context.
pub proof fn law_implausible_names_are_out(p: PairModel, w: Weights)
    ensures
        pair_match(p, false, w).total == -10_000_000,
        pair_match(p, true, w) == crate::matcher::match_of(
            crate::matcher::features_of(
                p.mention,
                p.mention_type,
                p.candidate,
                p.candidate_aliases,
                p.candidate_type,
                (crate::matcher::Ratio { num: 0, den: 1 }, 0u32, false),
            ),
            w,
        ),
{
}

/// The best threshold of a sweep: none that may be taken has a higher F1, and none later has as
/// high a one; where it has to be safe, its precision is 0.85 or more.
pub proof fn law_best_threshold(ms: Seq<Measures>, safe: bool)
    ensures
        match best_at(ms, safe) {
            Some(b) => {
                &&& 0 <= b < ms.len()
                &&& safe ==> ms[b].precision.rank() >= 0x3feb333333333333
                &&& forall|i: int|
                    0 <= i < ms.len() && (!safe || (#[trigger] ms[i]).precision.rank()
                        >= 0x3feb333333333333) ==> ms[i].f1.rank() <= ms[b].f1.rank()
                &&& forall|i: int|
                    b < i < ms.len() && (!safe || (#[trigger] ms[i]).precision.rank()
                        >= 0x3feb333333333333) ==> ms[i].f1.rank() < ms[b].f1.rank()
            },
            None => forall|i: int|
                0 <= i < ms.len() ==> safe && (#[trigger] ms[i]).precision.rank()
                    < 0x3feb333333333333,
        },
    decreases ms.len(),
{
    if ms.len() > 0 {
        let most = ms.drop_last();
        let n = ms.len() - 1;
        law_best_threshold(most, safe);
        assert(ms[n] == ms.last());
        assert forall|i: int| 0 <= i < n implies #[trigger] ms[i] == most[i] by {}
        match best_at(ms, safe) {
            Some(b) => {
                assert forall|i: int|
                    0 <= i < ms.len() && (!safe || (#[trigger] ms[i]).precision.rank()
                        >= 0x3feb333333333333) implies ms[i].f1.rank() <= ms[b].f1.rank() by {
                    if i < n {
                        assert(most[i] == ms[i]);
                    }
                }
                assert forall|i: int|
                    b < i < ms.len() && (!safe || (#[trigger] ms[i]).precision.rank()
                        >= 0x3feb333333333333) implies ms[i].f1.rank() < ms[b].f1.rank() by {
                    if i < n {
                        assert(most[i] == ms[i]);
                    }
                }
            },
            None => {
                assert forall|i: int| 0 <= i < ms.len() implies safe && (
                #[trigger] ms[i]).precision.rank() < 0x3feb333333333333 by {
                    if i < n {
                        assert(most[i] == ms[i]);
                    }
                }
            },
        }
    }
}

/// The pairs of a section of the report: those of its label and its decision, the highest total
/// first, or the lowest where that is asked for.
pub proof fn law_sections_list_their_pairs(
    x: Section,
    ps: Seq<PairModel>,
    ms: Seq<MatchModel>,
    w: Weights,
)
    ensures
        lists_highest_first(
            section_pairs(x, ps, ms, w),
            ps.len() as int,
            |i: int| ps[i].is_match == x.is_match && decision(ms[i].total as int, w) == x.bucket,
            |i: int|
                if x.ascending {
                    -ms[i].total
                } else {
                    ms[i].total as int
                },
        ),
{
    let n = ps.len() as int;
    let fits = |i: int|
        ps[i].is_match == x.is_match && decision(ms[i].total as int, w) == x.bucket;
    let key = |i: int|
        if x.ascending {
            -ms[i].total
        } else {
            ms[i].total as int
        };
    let at = places(n, fits);
    lemma_ranked(n, fits, key);
    assert(Seq::new(at.len(), |k: int| key(at[k])) =~= Seq::new(
        at.len(),
        |k: int|
            if x.ascending {
                -ms[at[k]].total
            } else {
                ms[at[k]].total as int
            },
    ));
}

/// The row is one of the mention in the source.
pub open spec fn is_mention(
    w: WorldModel,
    c: CandidateModel,
    source_ref: Seq<char>,
    mention: Seq<char>,
) -> bool {
    &&& c.mention_text == mention
    &&& item_of(w.source_items, c.source_item_id) is Some
    &&& item_of(w.source_items, c.source_item_id)->0.source_ref == source_ref
}

/// The state of a mention is that of its latest row: there is none that was made later.
pub proof fn law_latest_mention_counts(
    w: WorldModel,
    n: int,
    source_ref: Seq<char>,
    mention: Seq<char>,
)
    requires
        0 <= n <= w.candidates.len(),
    ensures
        match latest_mention(w, n, source_ref, mention) {
            Some(b) => {
                &&& 0 <= b < n
                &&& is_mention(w, w.candidates[b], source_ref, mention)
                &&& forall|i: int|
                    0 <= i < n && is_mention(w, #[trigger] w.candidates[i], source_ref, mention)
                        ==> !before(w.candidates[b].created_at, w.candidates[i].created_at)
            },
            None => forall|i: int|
                0 <= i < n ==> !is_mention(w, #[trigger] w.candidates[i], source_ref, mention),
        },
    decreases n,
{
    if n > 0 {
        law_latest_mention_counts(w, n - 1, source_ref, mention);
        let c = w.candidates[n - 1];
        crate::text::lemma_before_irreflexive(c.created_at);
        if let (Some(b), true) = (
            latest_mention(w, n - 1, source_ref, mention),
            is_mention(w, c, source_ref, mention),
        ) {
            let t = w.candidates[b].created_at;
            if before(t, c.created_at) {
                assert forall|i: int|
                    0 <= i < n && is_mention(
                        w,
                        #[trigger] w.candidates[i],
                        source_ref,
                        mention,
                    ) implies !before(c.created_at, w.candidates[i].created_at) by {
                    let u = w.candidates[i].created_at;
                    if before(c.created_at, u) {
                        crate::text::lemma_before_transitive(t, c.created_at, u);
                    }
                }
            }
        }
    }
}

/// When the trial passes: the mentions merged at first; the rejection made another entity and
/// parted the two; afterwards neither mention is merged with the old entity, but with the new one or
/// left for review; and both merges of the two are refused.
pub proof fn law_trial_passes(t: TrialModel, id: Seq<char>)
    requires
        t.entity == Some(id),
    ensures
        t.passes() <==> {
            &&& merged_into(t.s2, id) && merged_into(t.s3, id)
            &&& t.made != id
            &&& t.decorrelated
            &&& !merged_into(t.s2_again, id) && !merged_into(t.s3_again, id)
            &&& merged_into(t.s2_again, t.made) || (t.s2_again is Some && t.s2_again->0.status
                == "pending_review"@)
            &&& merged_into(t.s3_again, t.made) || (t.s3_again is Some && t.s3_again->0.status
                == "pending_review"@)
            &&& t.refusals.0 is Some
            &&& t.refusals.1 is Some
        },
{
}

/// A merge that is refused changes nothing, and one of two entities that were parted is refused,
/// whichever is named first.
pub proof fn law_refused_merge_changes_nothing(
    w: WorldModel,
    keep: Seq<char>,
    absorb: Seq<char>,
    now: Seq<char>,
)
    ensures
        attempted(w, keep, absorb, now).1 is Some ==> attempted(w, keep, absorb, now).0 == w,
        has_pair(w.decorrelations, ordered(keep, absorb)) ==> attempted(
            w,
            keep,
            absorb,
            now,
        ).1 is Some && attempted(w, absorb, keep, now).1 is Some,
        keep != absorb && !has_pair(w.decorrelations, ordered(keep, absorb)) && entity_of(
            w.entities,
            keep,
        ) is Some && entity_of(w.entities, absorb) is Some ==> attempted(
            w,
            keep,
            absorb,
            now,
        ).1 is None,
{
    crate::resolve::law_decorrelation_is_symmetric(w.decorrelations, keep, absorb);
}

/// Forgetting a resolution takes its mentions and relations, and makes every item pending again; it
/// keeps the entities and what humans decided.
pub proof fn law_forgetting_keeps_decisions(w: WorldModel, i: int)
    ensures
        ({
            let after = unresolved(w);
            &&& after.candidates.len() == 0
            &&& after.edges.len() == 0
            &&& after.entities == w.entities
            &&& after.keys == w.keys
            &&& after.decorrelations == w.decorrelations
            &&& after.decisions == w.decisions
            &&& after.source_items.len() == w.source_items.len()
            &&& 0 <= i < w.source_items.len() ==> after.source_items[i].status == "pending"@
                && after.source_items[i].id == w.source_items[i].id
                && after.source_items[i].raw_text == w.source_items[i].raw_text
        }),
{
}

/// The report of a trial ends with its result.
pub proof fn law_trial_report_says_the_result(t: TrialModel, generated: Seq<char>)
    requires
        t.entity is Some,
    ensures
        ({
            let text = crate::eval::trial_text(t, generated);
            let end = "\n\n## Result: "@ + (if t.passes() {
                "PASS"@
            } else {
                "FAIL"@
            }) + "\n"@;
            crate::matcher::ends_with(text, end)
        }),
{
    let text = crate::eval::trial_text(t, generated);
    let word = if t.passes() {
        "PASS"@
    } else {
        "FAIL"@
    };
    let end = "\n\n## Result: "@ + word + "\n"@;
    assert(text.skip(text.len() - end.len()) =~= end);
}

/// A check shows whether it passed.
pub proof fn law_checks_show_their_outcome(what: Seq<char>)
    ensures
        crate::eval::check_line(true, what) == "- ["@ + "PASS"@ + "] "@ + what + "\n"@,
        crate::eval::check_line(false, what) == "- ["@ + "FAIL"@ + "] "@ + what + "\n"@,
{
}

/// The sweep takes twenty-five thresholds, half a point apart from zero on; a threshold that is
/// higher merges no more pairs.
pub proof fn law_sweep_covers_the_thresholds(
    c: crate::eval::EvalCounts,
    ps: Seq<PairModel>,
    ms: Seq<MatchModel>,
    w: Weights,
    k: int,
)
    requires
        c.of(ps, ms, w),
        0 <= k < 25,
    ensures
        c.sweep@.len() == 25,
        crate::eval::counts(
            c.sweep@[k],
            Seq::new(ms.len(), |i: int| ms[i].total >= k * 500_000),
            Seq::new(ps.len(), |i: int| ps[i].is_match),
        ),
        crate::eval::counts(
            c.probabilistic,
            Seq::new(ms.len(), |i: int| ms[i].total >= w.upper),
            Seq::new(ps.len(), |i: int| ps[i].is_match),
        ),
        crate::eval::counts(
            c.baseline,
            Seq::new(ms.len(), |i: int| ms[i].features.name_jw.rank() >= 0x3febd70a3d70a3d7),
            Seq::new(ps.len(), |i: int| ps[i].is_match),
        ),
        crate::eval::counts(
            c.merge_or_review,
            Seq::new(ms.len(), |i: int| ms[i].total >= w.upper || ms[i].total >= w.lower),
            Seq::new(ps.len(), |i: int| ps[i].is_match),
        ),
{
    let labels = Seq::new(ps.len(), |i: int| ps[i].is_match);
    assert(crate::eval::labels_of(ps) =~= labels);
    assert(crate::eval::predictions(Rule::Reaches((k * 500_000) as i64), ms, w) =~= Seq::new(
        ms.len(),
        |i: int| ms[i].total >= k * 500_000,
    ));
    assert(crate::eval::predictions(Rule::Merges, ms, w) =~= Seq::new(
        ms.len(),
        |i: int| ms[i].total >= w.upper,
    ));
    assert(crate::eval::predictions(Rule::Similar, ms, w) =~= Seq::new(
        ms.len(),
        |i: int| ms[i].features.name_jw.rank() >= 0x3febd70a3d70a3d7,
    ));
    assert(crate::eval::predictions(Rule::MergesOrAsks, ms, w) =~= Seq::new(
        ms.len(),
        |i: int| ms[i].total >= w.upper || ms[i].total >= w.lower,
    ));
}

/// The precision, the recall and the harmonic mean, as they stand in a row of the report.
pub open spec fn measures_text(m: Measures) -> Seq<char> {
    " | "@ + fixed(m.precision, 3) + " | "@ + fixed(m.recall, 3) + " | "@ + fixed(m.f1, 3) + " | "@
}

/// What stands in a text stands in it when more is written.
proof fn lemma_then(a: Seq<char>, b: Seq<char>, y: Seq<char>)
    requires
        occurs(a, y),
    ensures
        occurs(a + b, y),
{
    let none = Seq::<char>::empty();
    lemma_within_part(none, a, b, y);
    assert(none + a + b =~= a + b);
}

/// What stands in a text stands in it behind another.
proof fn lemma_after(a: Seq<char>, b: Seq<char>, y: Seq<char>)
    requires
        occurs(b, y),
    ensures
        occurs(a + b, y),
{
    let none = Seq::<char>::empty();
    lemma_within_part(a, b, none, y);
    assert(a + b + none =~= a + b);
}

proof fn lemma_itself(x: Seq<char>)
    ensures
        occurs(x, x),
{
    let none = Seq::<char>::empty();
    lemma_within(none, x, none);
    assert(none + x + none =~= x);
}

proof fn lemma_grouped(a: Seq<char>, b: Seq<char>, c: Seq<char>)
    ensures
        a + b + c == a + (b + c),
{
    assert(a + b + c =~= a + (b + c));
}

/// Three texts that stand behind another stand there as one.
proof fn lemma_run_of_three(a: Seq<char>, x: Seq<char>, y: Seq<char>, z: Seq<char>)
    ensures
        occurs(a + x + y + z, x + y + z),
{
    lemma_itself(x + y + z);
    lemma_after(a, x + y + z, x + y + z);
    lemma_grouped(a, x, y);
    lemma_grouped(a, x + y, z);
}

/// Four texts that stand behind another stand there as one.
proof fn lemma_run_of_four(a: Seq<char>, x: Seq<char>, y: Seq<char>, z: Seq<char>, t: Seq<char>)
    ensures
        occurs(a + x + y + z + t, x + y + z + t),
{
    lemma_itself(x + y + z + t);
    lemma_after(a, x + y + z + t, x + y + z + t);
    lemma_grouped(a, x, y);
    lemma_grouped(a, x + y, z);
    lemma_grouped(a, x + y + z, t);
}

proof fn lemma_of_four(a: Seq<char>, b: Seq<char>, c: Seq<char>, d: Seq<char>, y: Seq<char>)
    requires
        occurs(a, y) || occurs(b, y) || occurs(c, y) || occurs(d, y),
    ensures
        occurs(a + b + c + d, y),
{
    if occurs(a, y) {
        lemma_then(a, b, y);
    } else if occurs(b, y) {
        lemma_after(a, b, y);
    }
    if occurs(a + b, y) {
        lemma_then(a + b, c, y);
    } else if occurs(c, y) {
        lemma_after(a + b, c, y);
    }
    if occurs(a + b + c, y) {
        lemma_then(a + b + c, d, y);
    } else {
        lemma_after(a + b + c, d, y);
    }
}

proof fn lemma_of_eight(
    a: Seq<char>,
    b: Seq<char>,
    c: Seq<char>,
    d: Seq<char>,
    e: Seq<char>,
    f: Seq<char>,
    g: Seq<char>,
    h: Seq<char>,
    y: Seq<char>,
)
    requires
        occurs(a, y) || occurs(b, y) || occurs(c, y) || occurs(d, y) || occurs(e, y) || occurs(f, y)
            || occurs(g, y) || occurs(h, y),
    ensures
        occurs(a + b + c + d + e + f + g + h, y),
{
    let most = a + b + c + d;
    if occurs(a, y) || occurs(b, y) || occurs(c, y) || occurs(d, y) {
        lemma_of_four(a, b, c, d, y);
    }
    if occurs(most, y) {
        lemma_then(most, e, y);
    } else if occurs(e, y) {
        lemma_after(most, e, y);
    }
    if occurs(most + e, y) || occurs(f, y) || occurs(g, y) || occurs(h, y) {
        lemma_of_four(most + e, f, g, h, y);
    }
}

/// The sweep has a row for every threshold, half a point apart, with what was measured and counted
/// there.
pub proof fn law_sweep_shows_every_threshold(sweep: Seq<Measures>, cs: Seq<Prf>, k: int)
    requires
        0 <= k < sweep.len(),
    ensures
        occurs(
            sweep_text(sweep, cs),
            "| "@ + tenths(k * 500_000, false) + measures_text(sweep[k]) + decimal(cs[k].tp as nat)
                + " | "@ + decimal(cs[k].fp as nat) + " | "@ + decimal(cs[k].fn_ as nat) + " |\n"@,
        ),
{
    let none = Seq::<char>::empty();
    let parts = Seq::new(sweep.len(), |j: int| sweep_row(j, sweep[j], cs[j]));
    let row = "| "@ + tenths(k * 500_000, false) + measures_text(sweep[k]) + decimal(
        cs[k].tp as nat,
    ) + " | "@ + decimal(cs[k].fp as nat) + " | "@ + decimal(cs[k].fn_ as nat) + " |\n"@;
    assert(parts[k] =~= row);
    lemma_flat_holds(parts, k);
    let head =
        "## Threshold sweep (positive iff total ≥ t)\n\n| t | P | R | F1 | TP | FP | FN |\n|---|---|---|---|---|---|---|\n"@;
    lemma_within_part(head, flat(parts), none, row);
    assert(head + flat(parts) + none =~= sweep_text(sweep, cs));
}

/// The report recommends the threshold of the best harmonic mean, and of the safe ones where there
/// is a safe one.
pub proof fn law_best_thresholds_are_named(sweep: Seq<Measures>, k: int)
    ensures
        best_at(sweep, true) == Some(k) ==> occurs(
            best_text(sweep),
            "Best merge threshold with precision ≥ 0.85 on this sample: **"@ + tenths(
                k * 500_000,
                false,
            ) + "**"@,
        ),
        best_at(sweep, false) == Some(k) ==> occurs(
            best_text(sweep),
            "Best F1 regardless of precision: "@ + fixed(sweep[k].f1, 3) + " at "@ + tenths(
                k * 500_000,
                false,
            ),
        ),
{
    let all = best_text(sweep);
    let safe = match best_at(sweep, true) {
        Some(j) => "Best merge threshold with precision ≥ 0.85 on this sample: **"@ + tenths(
            j * SWEEP_STEP,
            false,
        ) + "** (P "@ + fixed(sweep[j].precision, 3) + ", R "@ + fixed(sweep[j].recall, 3)
            + ", F1 "@ + fixed(sweep[j].f1, 3) + ")."@,
        None => seq![],
    };
    let best = match best_at(sweep, false) {
        Some(j) => " Best F1 regardless of precision: "@ + fixed(sweep[j].f1, 3) + " at "@ + tenths(
            j * SWEEP_STEP,
            false,
        ) + " (P "@ + fixed(sweep[j].precision, 3) + ", R "@ + fixed(sweep[j].recall, 3)
            + ").\n\n"@,
        None => seq![],
    };
    assert(all == safe + best);
    if best_at(sweep, true) == Some(k) {
        let x = "Best merge threshold with precision ≥ 0.85 on this sample: **"@ + tenths(
            k * 500_000,
            false,
        ) + "**"@;
        lemma_safe_named(tenths(k * 500_000, false), sweep[k]);
        lemma_then(safe, best, x);
    }
    if best_at(sweep, false) == Some(k) {
        let y = "Best F1 regardless of precision: "@ + fixed(sweep[k].f1, 3) + " at "@ + tenths(
            k * 500_000,
            false,
        );
        lemma_best_named(tenths(k * 500_000, false), sweep[k]);
        lemma_after(safe, best, y);
    }
}

proof fn lemma_safe_named(t: Seq<char>, m: Measures)
    ensures
        occurs(
            "Best merge threshold with precision ≥ 0.85 on this sample: **"@ + t + "** (P "@
                + fixed(m.precision, 3) + ", R "@ + fixed(m.recall, 3) + ", F1 "@ + fixed(m.f1, 3)
                + ")."@,
            "Best merge threshold with precision ≥ 0.85 on this sample: **"@ + t + "**"@,
        ),
{
    let none = Seq::<char>::empty();
    let l = "Best merge threshold with precision ≥ 0.85 on this sample: **"@;
    let y = l + t + "**"@;
    let begin = l + t + "** (P "@;
    assert("** (P "@ =~= "**"@ + " (P "@) by {
        reveal_strlit("** (P ");
        reveal_strlit("**");
        reveal_strlit(" (P ");
    }
    lemma_within(none, y, " (P "@);
    assert(none + y + " (P "@ =~= begin);
    lemma_of_eight(
        begin,
        fixed(m.precision, 3),
        ", R "@,
        fixed(m.recall, 3),
        ", F1 "@,
        fixed(m.f1, 3),
        ")."@,
        none,
        y,
    );
    let all = begin + fixed(m.precision, 3) + ", R "@ + fixed(m.recall, 3) + ", F1 "@ + fixed(
        m.f1,
        3,
    ) + ")."@;
    assert(all + none =~= all);
}

proof fn lemma_best_named(t: Seq<char>, m: Measures)
    ensures
        occurs(
            " Best F1 regardless of precision: "@ + fixed(m.f1, 3) + " at "@ + t + " (P "@ + fixed(
                m.precision,
                3,
            ) + ", R "@ + fixed(m.recall, 3) + ").\n\n"@,
            "Best F1 regardless of precision: "@ + fixed(m.f1, 3) + " at "@ + t,
        ),
{
    let l = "Best F1 regardless of precision: "@;
    let f = fixed(m.f1, 3);
    let y = l + f + " at "@ + t;
    assert(" Best F1 regardless of precision: "@ == " "@ + l) by {
        reveal_strlit(" Best F1 regardless of precision: ");
        reveal_strlit("Best F1 regardless of precision: ");
        reveal_strlit(" ");
        assert(" Best F1 regardless of precision: "@ =~= " "@ + l);
    }
    lemma_run_of_four(" "@, l, f, " at "@, t);
    let begin = " "@ + l + f + " at "@ + t;
    lemma_of_four(begin, " (P "@, fixed(m.precision, 3), ", R "@, y);
    let more = begin + " (P "@ + fixed(m.precision, 3) + ", R "@;
    lemma_then(more, fixed(m.recall, 3), y);
    lemma_then(more + fixed(m.recall, 3), ").\n\n"@, y);
}

/// A section of the report has its title and a line for each of its pairs, with the two names and
/// the total.
pub proof fn law_sections_show_their_pairs(
    title: Seq<char>,
    x: Section,
    ps: Seq<PairModel>,
    ms: Seq<MatchModel>,
    w: Weights,
    k: int,
)
    requires
        0 <= k < section_pairs(x, ps, ms, w).len(),
    ensures
        ({
            let i = section_pairs(x, ps, ms, w)[k];
            let names = if x.detail {
                "- **"@ + ps[i].mention + "** → "@ + ps[i].candidate
            } else {
                "- "@ + ps[i].mention + " → "@ + ps[i].candidate
            };
            occurs(
                section_text(title, x, ps, ms, w),
                names + " — total "@ + tenths(ms[i].total as int, false),
            )
        }),
        occurs(section_text(title, x, ps, ms, w), "\n## "@ + title + "\n"@),
{
    let none = Seq::<char>::empty();
    let at = section_pairs(x, ps, ms, w);
    let i = at[k];
    let parts = Seq::new(at.len(), |j: int| pair_line(ps[at[j]], ms[at[j]], x.detail));
    let all = section_text(title, x, ps, ms, w);
    let names = if x.detail {
        "- **"@ + ps[i].mention + "** → "@ + ps[i].candidate
    } else {
        "- "@ + ps[i].mention + " → "@ + ps[i].candidate
    };
    let line = names + " — total "@ + tenths(ms[i].total as int, false);
    let tail = if x.detail {
        " ("@ + parts_text(ms[i].contributions) + ")\n"@
    } else {
        "\n"@
    };
    assert(parts[k] =~= none + line + tail);
    lemma_within(none, line, tail);
    lemma_flat_holds(parts, k);
    let n = choose|n: int| crate::text::occurs_at(flat(parts), parts[k], n);
    let pre = flat(parts).take(n);
    let post = flat(parts).skip(n + parts[k].len());
    assert(flat(parts) =~= pre + parts[k] + post);
    lemma_within_part(pre, parts[k], post, line);
    let head = "\n## "@ + title + "\n\n"@;
    lemma_within_part(head, flat(parts), none, line);
    assert(head + flat(parts) + none =~= all);
    reveal_strlit("\n\n");
    reveal_strlit("\n");
    assert("\n\n"@ =~= "\n"@ + "\n"@);
    let top = "\n## "@ + title + "\n"@;
    assert(all =~= none + top + ("\n"@ + flat(parts)));
    lemma_within(none, top, "\n"@ + flat(parts));
}

/// The report counts its pairs, and shows for each rule what was measured of it and how many pairs
/// it merges, the sweep, the thresholds that it recommends, the wrong merges, the matches that
/// were missed, and the pairs that were left for review.
pub proof fn law_report_is_complete(
    generated: Seq<char>,
    path: Seq<char>,
    ps: Seq<PairModel>,
    ms: Seq<MatchModel>,
    w: Weights,
    c: EvalCounts,
    q: Rated,
    weights_json: Seq<char>,
)
    ensures
        ({
            let r = report_text(generated, path, ps, ms, w, c, q, weights_json);
            let n = (c.baseline.tp + c.baseline.fp + c.baseline.fn_ + c.baseline.tn) as nat;
            &&& occurs(r, decimal(n) + " labeled pairs"@)
            &&& occurs(
                r,
                " → merge"@ + measures_text(q.baseline) + decimal(
                    (c.baseline.tp + c.baseline.fp) as nat,
                ) + " |\n"@,
            )
            &&& occurs(
                r,
                tenths(w.upper as int, false) + " → merge"@ + measures_text(q.probabilistic)
                    + decimal((c.probabilistic.tp + c.probabilistic.fp) as nat) + " |\n"@,
            )
            &&& occurs(
                r,
                tenths(w.lower as int, false) + ")"@ + measures_text(q.merge_or_review) + decimal(
                    (c.merge_or_review.tp + c.merge_or_review.fp) as nat,
                ) + " |\n"@,
            )
            &&& occurs(r, best_text(q.sweep@))
            &&& occurs(r, sweep_text(q.sweep@, c.sweep@))
            &&& occurs(
                r,
                section_text(
                    "False positives at default (merged, but labeled non-match)"@,
                    (Section {
                        is_match: false,
                        bucket: Decision::Merge,
                        ascending: false,
                        detail: true,
                    }),
                    ps,
                    ms,
                    w,
                ),
            )
            &&& occurs(
                r,
                section_text(
                    "False negatives at default (labeled match, but rejected as new)"@,
                    (Section {
                        is_match: true,
                        bucket: Decision::New,
                        ascending: true,
                        detail: true,
                    }),
                    ps,
                    ms,
                    w,
                ),
            )
            &&& occurs(
                r,
                section_text(
                    "Matches sent to review at default"@,
                    (Section {
                        is_match: true,
                        bucket: Decision::Review,
                        ascending: true,
                        detail: false,
                    }),
                    ps,
                    ms,
                    w,
                ),
            )
            &&& occurs(
                r,
                section_text(
                    "Non-matches sent to review at default"@,
                    (Section {
                        is_match: false,
                        bucket: Decision::Review,
                        ascending: false,
                        detail: false,
                    }),
                    ps,
                    ms,
                    w,
                ),
            )
            &&& occurs(r, weights_json)
        }),
{
    let p0 = preface(generated, path, c);
    let p1 = headline(c, q, w);
    let p2 = best_text(q.sweep@);
    let p3 = sweep_text(q.sweep@, c.sweep@);
    let p4 = sections_text(ps, ms, w);
    let p5 = "\n## Weights used\n\n```json\n"@;
    let p7 = "\n```\n"@;
    let n = (c.baseline.tp + c.baseline.fp + c.baseline.fn_ + c.baseline.tn) as nat;
    let r0 = " → merge"@ + measures_text(q.baseline) + decimal(
        (c.baseline.tp + c.baseline.fp) as nat,
    ) + " |\n"@;
    let r1 = tenths(w.upper as int, false) + " → merge"@ + measures_text(q.probabilistic)
        + decimal((c.probabilistic.tp + c.probabilistic.fp) as nat) + " |\n"@;
    let r2 = tenths(w.lower as int, false) + ")"@ + measures_text(q.merge_or_review) + decimal(
        (c.merge_or_review.tp + c.merge_or_review.fp) as nat,
    ) + " |\n"@;
    lemma_preface_counts(generated, path, c);
    lemma_headline_rows(c, q, w);
    lemma_sections_in_turn(ps, ms, w);
    lemma_itself(p2);
    lemma_itself(p3);
    lemma_itself(weights_json);
    lemma_of_eight(p0, p1, p2, p3, p4, p5, weights_json, p7, decimal(n) + " labeled pairs"@);
    lemma_of_eight(p0, p1, p2, p3, p4, p5, weights_json, p7, r0);
    lemma_of_eight(p0, p1, p2, p3, p4, p5, weights_json, p7, r1);
    lemma_of_eight(p0, p1, p2, p3, p4, p5, weights_json, p7, r2);
    lemma_of_eight(p0, p1, p2, p3, p4, p5, weights_json, p7, p2);
    lemma_of_eight(p0, p1, p2, p3, p4, p5, weights_json, p7, p3);
    lemma_of_eight(p0, p1, p2, p3, p4, p5, weights_json, p7, weights_json);
    lemma_of_eight(p0, p1, p2, p3, p4, p5, weights_json, p7, part_text(0, ps, ms, w));
    lemma_of_eight(p0, p1, p2, p3, p4, p5, weights_json, p7, part_text(1, ps, ms, w));
    lemma_of_eight(p0, p1, p2, p3, p4, p5, weights_json, p7, part_text(2, ps, ms, w));
    lemma_of_eight(p0, p1, p2, p3, p4, p5, weights_json, p7, part_text(3, ps, ms, w));
}

spec fn part_text(n: int, ps: Seq<PairModel>, ms: Seq<MatchModel>, w: Weights) -> Seq<char> {
    if n == 0 {
        section_text(
            "False positives at default (merged, but labeled non-match)"@,
            Section { is_match: false, bucket: Decision::Merge, ascending: false, detail: true },
            ps,
            ms,
            w,
        )
    } else if n == 1 {
        section_text(
            "False negatives at default (labeled match, but rejected as new)"@,
            Section { is_match: true, bucket: Decision::New, ascending: true, detail: true },
            ps,
            ms,
            w,
        )
    } else if n == 2 {
        section_text(
            "Matches sent to review at default"@,
            Section { is_match: true, bucket: Decision::Review, ascending: true, detail: false },
            ps,
            ms,
            w,
        )
    } else {
        section_text(
            "Non-matches sent to review at default"@,
            Section { is_match: false, bucket: Decision::Review, ascending: false, detail: false },
            ps,
            ms,
            w,
        )
    }
}

proof fn lemma_sections_in_turn(ps: Seq<PairModel>, ms: Seq<MatchModel>, w: Weights)
    ensures
        forall|n: int|
            0 <= n < 4 ==> occurs(sections_text(ps, ms, w), #[trigger] part_text(n, ps, ms, w)),
{
    let none = Seq::<char>::empty();
    let a = part_text(0, ps, ms, w);
    let b = part_text(1, ps, ms, w);
    let c = part_text(2, ps, ms, w);
    let d = part_text(3, ps, ms, w);
    let all = sections_text(ps, ms, w);
    assert(all == a + b + c + d);
    lemma_within(none, a, b + c + d);
    assert(none + a + (b + c + d) =~= all);
    lemma_within(a, b, c + d);
    assert(a + b + (c + d) =~= all);
    lemma_within(a + b, c, d);
    lemma_within(a + b + c, d, none);
    assert((a + b + c) + d + none =~= all);
}

proof fn lemma_preface_counts(generated: Seq<char>, path: Seq<char>, c: EvalCounts)
    ensures
        occurs(
            preface(generated, path, c),
            decimal((c.baseline.tp + c.baseline.fp + c.baseline.fn_ + c.baseline.tn) as nat)
                + " labeled pairs"@,
        ),
{
    let n = decimal((c.baseline.tp + c.baseline.fp + c.baseline.fn_ + c.baseline.tn) as nat);
    reveal_strlit(" labeled pairs** — ");
    reveal_strlit(" labeled pairs");
    let rest = " labeled pairs** — "@.skip(" labeled pairs"@.len() as int);
    assert(" labeled pairs** — "@ =~= " labeled pairs"@ + rest);
    let x = n + " labeled pairs"@;
    let a = "# Matcher evaluation report\n\nGenerated "@ + generated
        + " by `enargeia eval match` from `"@ + path + "`.\n\n**"@;
    let b = preface(generated, path, c).skip((a + x).len() as int);
    assert(preface(generated, path, c) =~= a + x + b);
    lemma_within(a, x, b);
}

proof fn lemma_headline_rows(c: EvalCounts, q: Rated, w: Weights)
    ensures
        occurs(
            headline(c, q, w),
            " → merge"@ + measures_text(q.baseline) + decimal(
                (c.baseline.tp + c.baseline.fp) as nat,
            ) + " |\n"@,
        ),
        occurs(
            headline(c, q, w),
            tenths(w.upper as int, false) + " → merge"@ + measures_text(q.probabilistic) + decimal(
                (c.probabilistic.tp + c.probabilistic.fp) as nat,
            ) + " |\n"@,
        ),
        occurs(
            headline(c, q, w),
            tenths(w.lower as int, false) + ")"@ + measures_text(q.merge_or_review) + decimal(
                (c.merge_or_review.tp + c.merge_or_review.fp) as nat,
            ) + " |\n"@,
        ),
{
    let t0 = row_text(q.baseline, (c.baseline.tp + c.baseline.fp) as nat);
    let t1 = row_text(q.probabilistic, (c.probabilistic.tp + c.probabilistic.fp) as nat);
    let t2 = row_text(q.merge_or_review, (c.merge_or_review.tp + c.merge_or_review.fp) as nat);
    let up = tenths(w.upper as int, false);
    let low = tenths(w.lower as int, false);
    lemma_row(" → merge"@, q.baseline, (c.baseline.tp + c.baseline.fp) as nat);
    lemma_row(
        up + " → merge"@,
        q.probabilistic,
        (c.probabilistic.tp + c.probabilistic.fp) as nat,
    );
    lemma_row(
        low + ")"@,
        q.merge_or_review,
        (c.merge_or_review.tp + c.merge_or_review.fp) as nat,
    );
    lemma_first_row(t0);
    let a =
        "## Headline\n\n| Matcher | Precision | Recall | F1 | Auto-merges |\n|---|---|---|---|---|\n| v0.1 rule: Jaro-Winkler ≥ 0.87 → merge"@
        + t0;
    let y0 = " → merge"@ + t0;
    let y1 = up + " → merge"@ + t1;
    let y2 = low + ")"@ + t2;
    let m1 = "| Probabilistic: total ≥ "@;
    let m2 = "| Probabilistic: merge **or review** (≥ "@;
    let e1 =
        "\nAuto-merge precision is the safety number: a wrong merge silently corrupts the graph. Merge-or-review recall is the coverage number: a true match that reaches review is fixed by a human rather than duplicated. At the defaults "@;
    let e2 = fixed(q.review_percent, 1);
    let e3 = "% of pairs land in review.\n\n"@;
    lemma_rows_in_turn(a, m1, up, " → merge"@, t1, m2, low, ")"@, t2, y0);
    let b = a + m1 + up + " → merge"@ + t1 + m2 + low + ")"@ + t2;
    lemma_of_four(b, e1, e2, e3, y0);
    lemma_of_four(b, e1, e2, e3, y1);
    lemma_of_four(b, e1, e2, e3, y2);
}

proof fn lemma_rows_in_turn(
    a: Seq<char>,
    m1: Seq<char>,
    up: Seq<char>,
    x: Seq<char>,
    t1: Seq<char>,
    m2: Seq<char>,
    low: Seq<char>,
    z: Seq<char>,
    t2: Seq<char>,
    y0: Seq<char>,
)
    requires
        occurs(a, y0),
    ensures
        occurs(a + m1 + up + x + t1 + m2 + low + z + t2, y0),
        occurs(a + m1 + up + x + t1 + m2 + low + z + t2, up + x + t1),
        occurs(a + m1 + up + x + t1 + m2 + low + z + t2, low + z + t2),
{
    let y1 = up + x + t1;
    lemma_run_of_three(a + m1, up, x, t1);
    lemma_then(a, m1, y0);
    lemma_of_four(a + m1, up, x, t1, y0);
    let b = a + m1 + up + x + t1;
    lemma_run_of_three(b + m2, low, z, t2);
    lemma_then(b, m2, y0);
    lemma_then(b, m2, y1);
    lemma_of_four(b + m2, low, z, t2, y0);
    lemma_of_four(b + m2, low, z, t2, y1);
}

proof fn lemma_row(label: Seq<char>, m: Measures, merges: nat)
    ensures
        label + row_text(m, merges) == label + measures_text(m) + decimal(merges) + " |\n"@,
{
    assert(row_text(m, merges) == measures_text(m) + decimal(merges) + " |\n"@);
    assert(label + row_text(m, merges) =~= label + measures_text(m) + decimal(merges) + " |\n"@);
}

proof fn lemma_first_row(t: Seq<char>)
    ensures
        occurs(
            "## Headline\n\n| Matcher | Precision | Recall | F1 | Auto-merges |\n|---|---|---|---|---|\n| v0.1 rule: Jaro-Winkler ≥ 0.87 → merge"@
                + t,
            " → merge"@ + t,
        ),
{
    let h =
        "## Headline\n\n| Matcher | Precision | Recall | F1 | Auto-merges |\n|---|---|---|---|---|\n| v0.1 rule: Jaro-Winkler ≥ 0.87 → merge"@;
    let x = " → merge"@;
    let h0 = h.take(h.len() - x.len());
    assert(h.len() >= x.len() && h.skip(h.len() - x.len()) =~= x) by {
        reveal_strlit(
            "## Headline\n\n| Matcher | Precision | Recall | F1 | Auto-merges |\n|---|---|---|---|---|\n| v0.1 rule: Jaro-Winkler ≥ 0.87 → merge",
        );
        reveal_strlit(" → merge");
    }
    assert(h =~= h0 + h.skip(h.len() - x.len()));
    lemma_itself(x + t);
    lemma_after(h0, x + t, x + t);
    lemma_grouped(h0, x, t);
}

} // verus!
