//! Evaluations that ship with the library.
//!
//! - The matcher is measured against labeled pairs: the plain rule (auto-merge iff Jaro-Winkler is
//!   at least 0.87) against the probabilistic matcher at its thresholds, and a sweep of the merge
//!   threshold. Only string and type features are exercised; priors from the graph are zero here.
//! - The sticky-decorrelation guarantee is shown end to end on a scratch world.

use vstd::prelude::*;
use vstd::string::*;

use crate::double::{fixed, pad, padded, show_tenths, tenths, Double};
use crate::extract::{ExtractError, RegexExtractor};
use crate::matcher::{
    decide, decision, features_of, match_of, parts, score, Candidate, Decision, MatchModel,
    MatchScore, Ratio, Weights, SIMILAR_HIGH,
};
use crate::models::{is_instant, rows, CandidateModel, EntityModel, RawItem, RawModel, SourceModel};
use crate::order::{ints, positions, rank_descending, ranking};
use crate::table::{arrange, arranged, marked_places, places};
use crate::text::{
    before, decimal, decimal_of, flat, flatten, opt_copy, opt_view, quote, quoted, str_before,
    str_eq, views,
};
use crate::resolve::{
    all_resolved, apply_decision, candidate_of, decided, find_candidate, has_pair, ingest_item,
    ingested, is_decorrelated, judged, law_decorrelation_is_symmetric, law_rejection_parts,
    law_resolution_keeps, limited, merge_entities_at, merged, ordered, outcome, pending,
    resolve_pending, stopped, traced, with_index, DecisionModel, ItemTrace, ResolveError,
    ResolveErrorKind, ResolveStats,
};
use crate::why::{parts_text, write_parts};
use crate::world::{entity_of, find_item, is_stamp, item_of, StampModel, World, WorldModel};

verus! {

// ---------------------------------------------------------------------------------------------
// Labeled pairs

/// A mention, a candidate, and whether they are the same.
#[derive(Debug)]
pub struct LabeledPair {
    pub mention: String,
    pub mention_type: Option<String>,
    pub candidate: String,
    pub candidate_type: String,
    pub candidate_aliases: Vec<String>,
    pub is_match: bool,
}

#[verifier::ext_equal]
pub struct PairModel {
    pub mention: Seq<char>,
    pub mention_type: Option<Seq<char>>,
    pub candidate: Seq<char>,
    pub candidate_type: Seq<char>,
    pub candidate_aliases: Seq<Seq<char>>,
    pub is_match: bool,
}

impl View for LabeledPair {
    type V = PairModel;

    open spec fn view(&self) -> PairModel {
        PairModel {
            mention: self.mention@,
            mention_type: opt_view(self.mention_type),
            candidate: self.candidate@,
            candidate_type: self.candidate_type@,
            candidate_aliases: views(self.candidate_aliases@),
            is_match: self.is_match,
        }
    }
}

/// What a mention that fails the name gate scores, in millionths.
pub const GATE_SCORE: i64 = -10_000_000;

/// The score of a pair, by its strings and types alone. The pipeline never scores a mention that
/// fails the name gate, so neither does the evaluation: it scores far below any threshold.
pub open spec fn pair_match(p: PairModel, plausible: bool, w: Weights) -> MatchModel {
    let m = match_of(
        features_of(
            p.mention,
            p.mention_type,
            p.candidate,
            p.candidate_aliases,
            p.candidate_type,
            (Ratio { num: 0, den: 1 }, 0u32, false),
        ),
        w,
    );
    if plausible {
        m
    } else {
        MatchModel {
            total: GATE_SCORE,
            contributions: m.contributions.push(("name_gate"@, GATE_SCORE as int)),
            ..m
        }
    }
}

/// The type by which the name of a pair's mention is judged: its own, else the candidate's.
pub fn judged_type(p: &LabeledPair) -> (r: String)
    ensures
        r@ == match p@.mention_type {
            Some(t) => t,
            None => p@.candidate_type,
        },
{
    match opt_copy(&p.mention_type) {
        Some(t) => t,
        None => p.candidate_type.clone(),
    }
}

fn score_pair(p: &LabeledPair, plausible: bool, w: &Weights) -> (r: MatchScore)
    requires
        w.wf(),
    ensures
        r@ == pair_match(p@, plausible, *w),
{
    let cand = Candidate {
        canonical: p.candidate.as_str(),
        aliases: p.candidate_aliases.as_slice(),
        entity_type: p.candidate_type.as_str(),
        cooc: Ratio { num: 0, den: 1 },
        corroboration: 0,
        recent: false,
    };
    let mention_type = match &p.mention_type {
        Some(t) => Some(t.as_str()),
        None => None,
    };
    let mut m = score(p.mention.as_str(), mention_type, &cand, w);
    if !plausible {
        let ghost before = parts(m.contributions@);
        m.total = GATE_SCORE;
        m.contributions.push(("name_gate".to_owned(), GATE_SCORE));
        assert(parts(m.contributions@) =~= before.push(("name_gate"@, GATE_SCORE as int)));
    }
    m
}

/// Scores the pairs, given a judgement on the name of each.
pub fn score_pairs(pairs: &Vec<LabeledPair>, plausible: &Vec<bool>, w: &Weights) -> (r: Vec<
    MatchScore,
>)
    requires
        w.wf(),
        plausible@.len() == pairs@.len(),
    ensures
        r@.len() == pairs@.len(),
        forall|i: int|
            0 <= i < r@.len() ==> (#[trigger] r@[i])@ == pair_match(
                rows(pairs@)[i],
                plausible@[i],
                *w,
            ),
{
    let mut out: Vec<MatchScore> = Vec::new();
    let mut i: usize = 0;
    while i < pairs.len()
        invariant
            i <= pairs@.len(),
            w.wf(),
            plausible@.len() == pairs@.len(),
            out@.len() == i,
            forall|j: int|
                0 <= j < i ==> (#[trigger] out@[j])@ == pair_match(
                    rows(pairs@)[j],
                    plausible@[j],
                    *w,
                ),
        decreases pairs.len() - i,
    {
        out.push(score_pair(&pairs[i], plausible[i], w));
        i += 1;
    }
    out
}

// ---------------------------------------------------------------------------------------------
// Counts

/// How many predictions came out which way.
#[derive(Debug, Clone, Copy, PartialEq, Eq, Structural)]
pub struct Prf {
    pub tp: usize,
    pub fp: usize,
    pub fn_: usize,
    pub tn: usize,
}

impl Default for Prf {
    fn default() -> (r: Self)
        ensures
            r == (Prf { tp: 0, fp: 0, fn_: 0, tn: 0 }),
    {
        Prf { tp: 0, fp: 0, fn_: 0, tn: 0 }
    }
}

/// How often a prediction met a label.
pub open spec fn met(predicted: Seq<bool>, labels: Seq<bool>, p: bool, l: bool) -> nat
    decreases predicted.len(),
{
    if predicted.len() == 0 {
        0
    } else {
        met(predicted.drop_last(), labels.drop_last(), p, l) + if predicted.last() == p
            && labels.last() == l {
            1nat
        } else {
            0
        }
    }
}

/// The counts are those of the predictions.
pub open spec fn counts(r: Prf, predicted: Seq<bool>, labels: Seq<bool>) -> bool {
    &&& r.tp == met(predicted, labels, true, true)
    &&& r.fp == met(predicted, labels, true, false)
    &&& r.fn_ == met(predicted, labels, false, true)
    &&& r.tn == met(predicted, labels, false, false)
}

/// Counts predictions against labels.
pub fn tally(predicted: &Vec<bool>, labels: &Vec<bool>) -> (r: Prf)
    requires
        predicted@.len() == labels@.len(),
    ensures
        counts(r, predicted@, labels@),
        r.tp + r.fp + r.fn_ + r.tn == labels@.len(),
{
    let mut r = Prf::default();
    let mut i: usize = 0;
    assert(predicted@.take(0) =~= seq![]);
    while i < predicted.len()
        invariant
            i <= predicted@.len(),
            predicted@.len() == labels@.len(),
            r.tp + r.fp + r.fn_ + r.tn == i,
            counts(r, predicted@.take(i as int), labels@.take(i as int)),
        decreases predicted.len() - i,
    {
        assert(predicted@.take(i + 1).drop_last() =~= predicted@.take(i as int));
        assert(labels@.take(i + 1).drop_last() =~= labels@.take(i as int));
        match (predicted[i], labels[i]) {
            (true, true) => {
                r.tp = r.tp + 1;
            },
            (true, false) => {
                r.fp = r.fp + 1;
            },
            (false, true) => {
                r.fn_ = r.fn_ + 1;
            },
            (false, false) => {
                r.tn = r.tn + 1;
            },
        }
        i += 1;
    }
    assert(predicted@.take(i as int) =~= predicted@);
    assert(labels@.take(i as int) =~= labels@);
    r
}

/// Every pair is counted once.
pub proof fn law_every_pair_is_counted(predicted: Seq<bool>, labels: Seq<bool>)
    requires
        predicted.len() == labels.len(),
    ensures
        met(predicted, labels, true, true) + met(predicted, labels, true, false) + met(
            predicted,
            labels,
            false,
            true,
        ) + met(predicted, labels, false, false) == labels.len(),
    decreases predicted.len(),
{
    if predicted.len() > 0 {
        law_every_pair_is_counted(predicted.drop_last(), labels.drop_last());
    }
}

/// How a pair is decided.
#[derive(Clone, Copy, Debug, PartialEq, Eq, Structural)]
pub enum Rule {
    /// Merge iff the names are similar enough.
    Similar,
    /// Merge iff the matcher merges.
    Merges,
    /// Merge iff the matcher merges or asks a human.
    MergesOrAsks,
    /// Merge iff the total, in millionths, reaches this.
    Reaches(i64),
}

pub open spec fn predicts(rule: Rule, m: MatchModel, w: Weights) -> bool {
    match rule {
        Rule::Similar => m.features.name_jw.rank() >= SIMILAR_HIGH,
        Rule::Merges => decision(m.total as int, w) == Decision::Merge,
        Rule::MergesOrAsks => decision(m.total as int, w) != Decision::New,
        Rule::Reaches(t) => m.total >= t,
    }
}

fn predict(rule: Rule, m: &MatchScore, w: &Weights) -> (r: bool)
    ensures
        r == predicts(rule, m@, *w),
{
    match rule {
        Rule::Similar => m.features.name_jw.at_least(Double::from_bits(SIMILAR_HIGH)),
        Rule::Merges => decide(m.total, w) == Decision::Merge,
        Rule::MergesOrAsks => decide(m.total, w) != Decision::New,
        Rule::Reaches(t) => m.total >= t,
    }
}

/// The predictions of a rule.
pub open spec fn predictions(rule: Rule, ms: Seq<MatchModel>, w: Weights) -> Seq<bool> {
    Seq::new(ms.len(), |i: int| predicts(rule, ms[i], w))
}

/// The labels of the pairs.
pub open spec fn labels_of(ps: Seq<PairModel>) -> Seq<bool> {
    Seq::new(ps.len(), |i: int| ps[i].is_match)
}

/// Counts the predictions of a rule.
pub fn tally_rule(
    rule: Rule,
    pairs: &Vec<LabeledPair>,
    ms: &Vec<MatchScore>,
    w: &Weights,
) -> (r: Prf)
    requires
        ms@.len() == pairs@.len(),
    ensures
        counts(r, predictions(rule, rows(ms@), *w), labels_of(rows(pairs@))),
        r.tp + r.fp + r.fn_ + r.tn == pairs@.len(),
{
    let ghost pg = predictions(rule, rows(ms@), *w);
    let ghost lg = labels_of(rows(pairs@));
    let mut predicted: Vec<bool> = Vec::new();
    let mut labels: Vec<bool> = Vec::new();
    let mut i: usize = 0;
    while i < pairs.len()
        invariant
            i <= pairs@.len(),
            ms@.len() == pairs@.len(),
            pg == predictions(rule, rows(ms@), *w),
            lg == labels_of(rows(pairs@)),
            predicted@.len() == i,
            labels@.len() == i,
            forall|j: int| 0 <= j < i ==> #[trigger] predicted@[j] == pg[j],
            forall|j: int| 0 <= j < i ==> #[trigger] labels@[j] == lg[j],
        decreases pairs.len() - i,
    {
        predicted.push(predict(rule, &ms[i], w));
        labels.push(pairs[i].is_match);
        i += 1;
    }
    assert(predicted@ =~= pg);
    assert(labels@ =~= lg);
    tally(&predicted, &labels)
}

/// How many thresholds are swept, and how far they lie apart, in millionths.
pub const SWEEP_STEPS: usize = 25;

pub const SWEEP_STEP: i64 = 500_000;

/// What the pairs come to under each rule.
#[derive(Debug)]
pub struct EvalCounts {
    pub baseline: Prf,
    /// Merge decisions only.
    pub probabilistic: Prf,
    /// Merge or review: a true match that lands in review is caught by a human instead of silently
    /// duplicated, so this is the operationally relevant recall.
    pub merge_or_review: Prf,
    /// How many pairs land in review.
    pub reviews: usize,
    /// The counts at each threshold of the sweep.
    pub sweep: Vec<Prf>,
}

impl EvalCounts {
    /// The counts are those of the scored pairs.
    pub open spec fn of(self, ps: Seq<PairModel>, ms: Seq<MatchModel>, w: Weights) -> bool {
        let labels = labels_of(ps);
        &&& counts(self.baseline, predictions(Rule::Similar, ms, w), labels)
        &&& counts(self.probabilistic, predictions(Rule::Merges, ms, w), labels)
        &&& counts(self.merge_or_review, predictions(Rule::MergesOrAsks, ms, w), labels)
        &&& self.reviews == met(
            predictions(Rule::MergesOrAsks, ms, w),
            predictions(Rule::Merges, ms, w),
            true,
            false,
        )
        &&& self.sweep@.len() == SWEEP_STEPS
        &&& forall|k: int|
            0 <= k < SWEEP_STEPS ==> counts(
                #[trigger] self.sweep@[k],
                predictions(Rule::Reaches((k * SWEEP_STEP) as i64), ms, w),
                labels,
            )
    }
}

fn count_reviews(ms: &Vec<MatchScore>, w: &Weights) -> (r: usize)
    ensures
        r == met(
            predictions(Rule::MergesOrAsks, rows(ms@), *w),
            predictions(Rule::Merges, rows(ms@), *w),
            true,
            false,
        ),
{
    let ghost a = predictions(Rule::MergesOrAsks, rows(ms@), *w);
    let ghost b = predictions(Rule::Merges, rows(ms@), *w);
    let mut n: usize = 0;
    let mut i: usize = 0;
    assert(a.take(0) =~= seq![]);
    while i < ms.len()
        invariant
            i <= ms@.len(),
            a == predictions(Rule::MergesOrAsks, rows(ms@), *w),
            b == predictions(Rule::Merges, rows(ms@), *w),
            n <= i,
            n == met(a.take(i as int), b.take(i as int), true, false),
        decreases ms.len() - i,
    {
        assert(a.take(i + 1).drop_last() =~= a.take(i as int));
        assert(b.take(i + 1).drop_last() =~= b.take(i as int));
        assert(a.take(i + 1).last() == a[i as int]);
        assert(b.take(i + 1).last() == b[i as int]);
        if decide(ms[i].total, w) == Decision::Review {
            n += 1;
        }
        i += 1;
    }
    assert(a.take(i as int) =~= a);
    assert(b.take(i as int) =~= b);
    n
}

/// Counts what the scored pairs come to.
pub fn measure(pairs: &Vec<LabeledPair>, ms: &Vec<MatchScore>, w: &Weights) -> (r: EvalCounts)
    requires
        ms@.len() == pairs@.len(),
    ensures
        r.of(rows(pairs@), rows(ms@), *w),
{
    let mut sweep: Vec<Prf> = Vec::new();
    let mut k: usize = 0;
    let mut t: i64 = 0;
    while k < SWEEP_STEPS
        invariant
            k <= SWEEP_STEPS,
            t == k * 500_000,
            ms@.len() == pairs@.len(),
            sweep@.len() == k,
            forall|j: int|
                0 <= j < k ==> counts(
                    #[trigger] sweep@[j],
                    predictions(Rule::Reaches((j * SWEEP_STEP) as i64), rows(ms@), *w),
                    labels_of(rows(pairs@)),
                ),
        decreases SWEEP_STEPS - k,
    {
        assert(t == k * SWEEP_STEP);
        sweep.push(tally_rule(Rule::Reaches(t), pairs, ms, w));
        t += SWEEP_STEP;
        k += 1;
    }
    EvalCounts {
        baseline: tally_rule(Rule::Similar, pairs, ms, w),
        probabilistic: tally_rule(Rule::Merges, pairs, ms, w),
        merge_or_review: tally_rule(Rule::MergesOrAsks, pairs, ms, w),
        reviews: count_reviews(ms, w),
        sweep,
    }
}

// ---------------------------------------------------------------------------------------------
// The report

/// What counts come to: precision, recall and their harmonic mean.
#[derive(Debug, Clone, Copy, PartialEq, Eq, Structural)]
pub struct Measures {
    pub precision: Double,
    pub recall: Double,
    pub f1: Double,
}

/// What the counts of an evaluation come to.
#[derive(Debug)]
pub struct Rated {
    pub baseline: Measures,
    pub probabilistic: Measures,
    pub merge_or_review: Measures,
    /// The share of pairs that land in review, in percent.
    pub review_percent: Double,
    pub sweep: Vec<Measures>,
}

/// The bits of the double 0.85, the precision from which on merging is safe.
pub const SAFE_PRECISION: u64 = 0x3feb333333333333;

/// The position of the best harmonic mean, the last of equals; among those of safe precision where
/// that is asked for.
pub open spec fn best_at(ms: Seq<Measures>, safe: bool) -> Option<int>
    decreases ms.len(),
{
    if ms.len() == 0 {
        None
    } else {
        let best = best_at(ms.drop_last(), safe);
        let m = ms.last();
        if safe && m.precision.rank() < SAFE_PRECISION {
            best
        } else {
            match best {
                Some(b) => if m.f1.rank() >= ms[b].f1.rank() {
                    Some(ms.len() - 1)
                } else {
                    Some(b)
                },
                None => Some(ms.len() - 1),
            }
        }
    }
}

/// The position of the best harmonic mean of a sweep.
pub fn find_best(ms: &Vec<Measures>, safe: bool) -> (r: Option<usize>)
    ensures
        match r {
            Some(b) => b < ms@.len() && best_at(ms@, safe) == Some(b as int),
            None => best_at(ms@, safe) is None,
        },
{
    let floor = Double::from_bits(SAFE_PRECISION);
    let mut best: Option<usize> = None;
    let mut i: usize = 0;
    assert(ms@.take(0) =~= seq![]);
    while i < ms.len()
        invariant
            i <= ms@.len(),
            floor.rank() == SAFE_PRECISION,
            match best {
                Some(b) => b < i && best_at(ms@.take(i as int), safe) == Some(b as int),
                None => best_at(ms@.take(i as int), safe) is None,
            },
        decreases ms.len() - i,
    {
        assert(ms@.take(i + 1).drop_last() =~= ms@.take(i as int));
        if !safe || ms[i].precision.at_least(floor) {
            best = match best {
                Some(b) => if ms[i].f1.at_least(ms[b].f1) {
                    Some(i)
                } else {
                    Some(b)
                },
                None => Some(i),
            };
        }
        i += 1;
    }
    assert(ms@.take(i as int) =~= ms@);
    best
}

/// The end of a row of the table of matchers: the measures, and how many pairs were merged.
pub open spec fn row_text(m: Measures, merges: nat) -> Seq<char> {
    " | "@ + fixed(m.precision, 3) + " | "@ + fixed(m.recall, 3) + " | "@ + fixed(m.f1, 3) + " | "@
        + decimal(merges) + " |\n"@
}

fn write_row(m: &Measures, merges: usize) -> (r: String)
    ensures
        r@ == row_text(*m, merges as nat),
{
    let mut t = " | ".to_owned();
    t.append(m.precision.to_fixed(3).as_str());
    t.append(" | ");
    t.append(m.recall.to_fixed(3).as_str());
    t.append(" | ");
    t.append(m.f1.to_fixed(3).as_str());
    t.append(" | ");
    t.append(decimal_of(merges as u64).as_str());
    t.append(" |\n");
    t
}

/// Where the report comes from and what it is on.
pub open spec fn preface(generated: Seq<char>, path: Seq<char>, c: EvalCounts) -> Seq<char> {
    "# Matcher evaluation report\n\nGenerated "@ + generated
        + " by `enargeia eval match` from `"@ + path + "`.\n\n**"@ + decimal(
        (c.baseline.tp + c.baseline.fp + c.baseline.fn_ + c.baseline.tn) as nat,
    ) + " labeled pairs** — "@ + decimal((c.baseline.tp + c.baseline.fn_) as nat) + " matches, "@
        + decimal((c.baseline.fp + c.baseline.tn) as nat)
        + " non-matches. Only string/type features are exercised here; co-occurrence, corroboration and recency priors are zero. See `eval/README.md` for the labeling policy and provenance.\n\n"@
}

/// The table of matchers.
pub open spec fn headline(c: EvalCounts, q: Rated, w: Weights) -> Seq<char> {
    "## Headline\n\n| Matcher | Precision | Recall | F1 | Auto-merges |\n|---|---|---|---|---|\n| v0.1 rule: Jaro-Winkler ≥ 0.87 → merge"@
        + row_text(q.baseline, (c.baseline.tp + c.baseline.fp) as nat)
        + "| Probabilistic: total ≥ "@ + tenths(w.upper as int, false) + " → merge"@ + row_text(
        q.probabilistic,
        (c.probabilistic.tp + c.probabilistic.fp) as nat,
    ) + "| Probabilistic: merge **or review** (≥ "@ + tenths(w.lower as int, false) + ")"@
        + row_text(
        q.merge_or_review,
        (c.merge_or_review.tp + c.merge_or_review.fp) as nat,
    )
        + "\nAuto-merge precision is the safety number: a wrong merge silently corrupts the graph. Merge-or-review recall is the coverage number: a true match that reaches review is fixed by a human rather than duplicated. At the defaults "@
        + fixed(q.review_percent, 1) + "% of pairs land in review.\n\n"@
}

/// The best thresholds of the sweep.
pub open spec fn best_text(sweep: Seq<Measures>) -> Seq<char> {
    (match best_at(sweep, true) {
        Some(k) => "Best merge threshold with precision ≥ 0.85 on this sample: **"@ + tenths(
            k * SWEEP_STEP,
            false,
        ) + "** (P "@ + fixed(sweep[k].precision, 3) + ", R "@ + fixed(sweep[k].recall, 3)
            + ", F1 "@ + fixed(sweep[k].f1, 3) + ")."@,
        None => seq![],
    }) + (match best_at(sweep, false) {
        Some(k) => " Best F1 regardless of precision: "@ + fixed(sweep[k].f1, 3) + " at "@ + tenths(
            k * SWEEP_STEP,
            false,
        ) + " (P "@ + fixed(sweep[k].precision, 3) + ", R "@ + fixed(sweep[k].recall, 3)
            + ").\n\n"@,
        None => seq![],
    })
}

/// A row of the sweep.
pub open spec fn sweep_row(k: int, m: Measures, c: Prf) -> Seq<char> {
    "| "@ + tenths(k * SWEEP_STEP, false) + " | "@ + fixed(m.precision, 3) + " | "@ + fixed(
        m.recall,
        3,
    ) + " | "@ + fixed(m.f1, 3) + " | "@ + decimal(c.tp as nat) + " | "@ + decimal(c.fp as nat)
        + " | "@ + decimal(c.fn_ as nat) + " |\n"@
}

/// The sweep.
pub open spec fn sweep_text(sweep: Seq<Measures>, cs: Seq<Prf>) -> Seq<char> {
    "## Threshold sweep (positive iff total ≥ t)\n\n| t | P | R | F1 | TP | FP | FN |\n|---|---|---|---|---|---|---|\n"@
        + flat(Seq::new(sweep.len(), |k: int| sweep_row(k, sweep[k], cs[k])))
}

/// Which pairs a section lists: how they are labeled, how they are decided, in which order, and
/// whether with the evidence.
#[derive(Debug, Clone, Copy, PartialEq, Eq, Structural)]
pub struct Section {
    pub is_match: bool,
    pub bucket: Decision,
    pub ascending: bool,
    pub detail: bool,
}

/// The positions of the pairs of a section, in order.
pub open spec fn section_pairs(
    x: Section,
    ps: Seq<PairModel>,
    ms: Seq<MatchModel>,
    w: Weights,
) -> Seq<int> {
    let at = places(
        ps.len() as int,
        |i: int|
            ps[i].is_match == x.is_match && decision(ms[i].total as int, w) == x.bucket,
    );
    arranged(
        at,
        ranking(
            Seq::new(
                at.len(),
                |k: int|
                    if x.ascending {
                        -ms[at[k]].total
                    } else {
                        ms[at[k]].total as int
                    },
            ),
        ),
    )
}

/// The line on a pair.
pub open spec fn pair_line(p: PairModel, m: MatchModel, detail: bool) -> Seq<char> {
    if detail {
        "- **"@ + p.mention + "** → "@ + p.candidate + " — total "@ + tenths(m.total as int, false)
            + " ("@ + parts_text(m.contributions) + ")\n"@
    } else {
        "- "@ + p.mention + " → "@ + p.candidate + " — total "@ + tenths(m.total as int, false)
            + "\n"@
    }
}

/// A section of the report.
pub open spec fn section_text(
    title: Seq<char>,
    x: Section,
    ps: Seq<PairModel>,
    ms: Seq<MatchModel>,
    w: Weights,
) -> Seq<char> {
    let at = section_pairs(x, ps, ms, w);
    "\n## "@ + title + "\n\n"@ + (if at.len() == 0 {
        "_none_\n"@
    } else {
        seq![]
    }) + flat(Seq::new(at.len(), |k: int| pair_line(ps[at[k]], ms[at[k]], x.detail)))
}

/// The sections on single pairs.
pub open spec fn sections_text(ps: Seq<PairModel>, ms: Seq<MatchModel>, w: Weights) -> Seq<char> {
    section_text(
        "False positives at default (merged, but labeled non-match)"@,
        Section { is_match: false, bucket: Decision::Merge, ascending: false, detail: true },
        ps,
        ms,
        w,
    ) + section_text(
        "False negatives at default (labeled match, but rejected as new)"@,
        Section { is_match: true, bucket: Decision::New, ascending: true, detail: true },
        ps,
        ms,
        w,
    ) + section_text(
        "Matches sent to review at default"@,
        Section { is_match: true, bucket: Decision::Review, ascending: true, detail: false },
        ps,
        ms,
        w,
    ) + section_text(
        "Non-matches sent to review at default"@,
        Section { is_match: false, bucket: Decision::Review, ascending: false, detail: false },
        ps,
        ms,
        w,
    )
}

/// The report of an evaluation.
pub open spec fn report_text(
    generated: Seq<char>,
    path: Seq<char>,
    ps: Seq<PairModel>,
    ms: Seq<MatchModel>,
    w: Weights,
    c: EvalCounts,
    q: Rated,
    weights_json: Seq<char>,
) -> Seq<char> {
    preface(generated, path, c) + headline(c, q, w) + best_text(q.sweep@) + sweep_text(
        q.sweep@,
        c.sweep@,
    ) + sections_text(ps, ms, w) + "\n## Weights used\n\n```json\n"@ + weights_json + "\n```\n"@
}

fn write_preface(generated: &str, path: &str, c: &EvalCounts) -> (r: String)
    requires
        c.baseline.tp + c.baseline.fp + c.baseline.fn_ + c.baseline.tn <= usize::MAX,
    ensures
        r@ == preface(generated@, path@, *c),
{
    let b = c.baseline;
    let matches: usize = b.tp + b.fn_;
    let others: usize = b.fp + b.tn;
    let mut m = "# Matcher evaluation report\n\nGenerated ".to_owned();
    m.append(generated);
    m.append(" by `enargeia eval match` from `");
    m.append(path);
    m.append("`.\n\n**");
    m.append(decimal_of((matches + others) as u64).as_str());
    m.append(" labeled pairs** — ");
    m.append(decimal_of(matches as u64).as_str());
    m.append(" matches, ");
    m.append(decimal_of(others as u64).as_str());
    m.append(
        " non-matches. Only string/type features are exercised here; co-occurrence, corroboration and recency priors are zero. See `eval/README.md` for the labeling policy and provenance.\n\n",
    );
    m
}

fn write_headline(c: &EvalCounts, q: &Rated, w: &Weights) -> (r: String)
    requires
        c.baseline.tp + c.baseline.fp <= usize::MAX,
        c.probabilistic.tp + c.probabilistic.fp <= usize::MAX,
        c.merge_or_review.tp + c.merge_or_review.fp <= usize::MAX,
    ensures
        r@ == headline(*c, *q, *w),
{
    let mut m =
        "## Headline\n\n| Matcher | Precision | Recall | F1 | Auto-merges |\n|---|---|---|---|---|\n| v0.1 rule: Jaro-Winkler ≥ 0.87 → merge".to_owned();
    m.append(write_row(&q.baseline, c.baseline.tp + c.baseline.fp).as_str());
    m.append("| Probabilistic: total ≥ ");
    m.append(show_tenths(w.upper, false).as_str());
    m.append(" → merge");
    m.append(write_row(&q.probabilistic, c.probabilistic.tp + c.probabilistic.fp).as_str());
    m.append("| Probabilistic: merge **or review** (≥ ");
    m.append(show_tenths(w.lower, false).as_str());
    m.append(")");
    m.append(
        write_row(&q.merge_or_review, c.merge_or_review.tp + c.merge_or_review.fp).as_str(),
    );
    m.append(
        "\nAuto-merge precision is the safety number: a wrong merge silently corrupts the graph. Merge-or-review recall is the coverage number: a true match that reaches review is fixed by a human rather than duplicated. At the defaults ",
    );
    m.append(q.review_percent.to_fixed(1).as_str());
    m.append("% of pairs land in review.\n\n");
    m
}

fn write_best(sweep: &Vec<Measures>) -> (r: String)
    requires
        sweep@.len() <= SWEEP_STEPS,
    ensures
        r@ == best_text(sweep@),
{
    let mut safe = String::new();
    if let Some(k) = find_best(sweep, true) {
        let t: i64 = k as i64 * SWEEP_STEP;
        safe = "Best merge threshold with precision ≥ 0.85 on this sample: **".to_owned();
        safe.append(show_tenths(t, false).as_str());
        safe.append("** (P ");
        safe.append(sweep[k].precision.to_fixed(3).as_str());
        safe.append(", R ");
        safe.append(sweep[k].recall.to_fixed(3).as_str());
        safe.append(", F1 ");
        safe.append(sweep[k].f1.to_fixed(3).as_str());
        safe.append(").");
    }
    let mut any = String::new();
    if let Some(k) = find_best(sweep, false) {
        let t: i64 = k as i64 * SWEEP_STEP;
        any = " Best F1 regardless of precision: ".to_owned();
        any.append(sweep[k].f1.to_fixed(3).as_str());
        any.append(" at ");
        any.append(show_tenths(t, false).as_str());
        any.append(" (P ");
        any.append(sweep[k].precision.to_fixed(3).as_str());
        any.append(", R ");
        any.append(sweep[k].recall.to_fixed(3).as_str());
        any.append(").\n\n");
    }
    safe.append(any.as_str());
    safe
}

fn write_sweep(sweep: &Vec<Measures>, cs: &Vec<Prf>) -> (r: String)
    requires
        sweep@.len() <= SWEEP_STEPS,
        cs@.len() == sweep@.len(),
    ensures
        r@ == sweep_text(sweep@, cs@),
{
    let ghost goal = Seq::new(sweep@.len(), |k: int| sweep_row(k, sweep@[k], cs@[k]));
    let mut out: Vec<String> = Vec::new();
    let mut k: usize = 0;
    while k < sweep.len()
        invariant
            k <= sweep@.len() <= SWEEP_STEPS,
            cs@.len() == sweep@.len(),
            goal == Seq::new(sweep@.len(), |k: int| sweep_row(k, sweep@[k], cs@[k])),
            out@.len() == k,
            forall|j: int| 0 <= j < k ==> (#[trigger] out@[j])@ == goal[j],
        decreases sweep.len() - k,
    {
        let t: i64 = k as i64 * SWEEP_STEP;
        let mut m = "| ".to_owned();
        m.append(show_tenths(t, false).as_str());
        m.append(" | ");
        m.append(sweep[k].precision.to_fixed(3).as_str());
        m.append(" | ");
        m.append(sweep[k].recall.to_fixed(3).as_str());
        m.append(" | ");
        m.append(sweep[k].f1.to_fixed(3).as_str());
        m.append(" | ");
        m.append(decimal_of(cs[k].tp as u64).as_str());
        m.append(" | ");
        m.append(decimal_of(cs[k].fp as u64).as_str());
        m.append(" | ");
        m.append(decimal_of(cs[k].fn_ as u64).as_str());
        m.append(" |\n");
        out.push(m);
        k += 1;
    }
    assert(views(out@) =~= goal);
    let mut m =
        "## Threshold sweep (positive iff total ≥ t)\n\n| t | P | R | F1 | TP | FP | FN |\n|---|---|---|---|---|---|---|\n".to_owned();
    m.append(flatten(&out).as_str());
    m
}

fn find_section(x: Section, ps: &Vec<LabeledPair>, ms: &Vec<MatchScore>, w: &Weights) -> (r: Vec<
    usize,
>)
    requires
        ms@.len() == ps@.len(),
    ensures
        positions(r@) == section_pairs(x, rows(ps@), rows(ms@), *w),
        forall|k: int| 0 <= k < r@.len() ==> #[trigger] r@[k] < ps@.len(),
{
    let ghost pv = rows(ps@);
    let ghost mv = rows(ms@);
    let ghost fits = |i: int|
        pv[i].is_match == x.is_match && decision(mv[i].total as int, *w) == x.bucket;
    let mut marks: Vec<bool> = Vec::new();
    let mut i: usize = 0;
    while i < ps.len()
        invariant
            i <= ps@.len(),
            ms@.len() == ps@.len(),
            pv == rows(ps@),
            mv == rows(ms@),
            fits == (|i: int|
                pv[i].is_match == x.is_match && decision(mv[i].total as int, *w) == x.bucket),
            marks@.len() == i,
            forall|j: int| 0 <= j < i ==> #[trigger] marks@[j] == fits(j),
        decreases ps.len() - i,
    {
        assert(pv[i as int] == ps@[i as int]@);
        assert(mv[i as int] == ms@[i as int]@);
        marks.push(ps[i].is_match == x.is_match && decide(ms[i].total, w) == x.bucket);
        i += 1;
    }
    let at = marked_places(&marks, Ghost(fits));
    let ghost av = positions(at@);
    let ghost key = |k: int|
        if x.ascending {
            -mv[av[k]].total
        } else {
            mv[av[k]].total as int
        };
    let mut keys: Vec<i128> = Vec::new();
    let mut k: usize = 0;
    while k < at.len()
        invariant
            k <= at@.len(),
            ms@.len() == ps@.len(),
            mv == rows(ms@),
            av == positions(at@),
            key == (|k: int|
                if x.ascending {
                    -mv[av[k]].total
                } else {
                    mv[av[k]].total as int
                }),
            forall|j: int| 0 <= j < at@.len() ==> #[trigger] at@[j] < ps@.len(),
            keys@.len() == k,
            forall|j: int| 0 <= j < k ==> #[trigger] keys@[j] == key(j),
        decreases at.len() - k,
    {
        assert(av[k as int] == at@[k as int]);
        assert(mv[av[k as int]].total == ms@[at@[k as int] as int].total);
        let t: i128 = ms[at[k]].total as i128;
        if x.ascending {
            keys.push(-t);
        } else {
            keys.push(t);
        }
        k += 1;
    }
    assert(ints(keys@) =~= Seq::new(
        av.len(),
        |k: int|
            if x.ascending {
                -mv[av[k]].total
            } else {
                mv[av[k]].total as int
            },
    )) by {
        assert forall|j: int| 0 <= j < keys@.len() implies ints(keys@)[j] == key(j) by {
            assert(keys@[j] == key(j));
        }
    }
    let order = rank_descending(&keys);
    let r = arrange(&at, &order);
    proof {
        assert forall|k: int| 0 <= k < r@.len() implies (#[trigger] r@[k]) < ps@.len() by {
            assert(at@.contains(r@[k]));
        }
    }
    r
}

fn write_pair(p: &LabeledPair, s: &MatchScore, detail: bool) -> (r: String)
    ensures
        r@ == pair_line(p@, s@, detail),
{
    if detail {
        let mut m = "- **".to_owned();
        m.append(p.mention.as_str());
        m.append("** → ");
        m.append(p.candidate.as_str());
        m.append(" — total ");
        m.append(show_tenths(s.total, false).as_str());
        m.append(" (");
        m.append(write_parts(&s.contributions).as_str());
        m.append(")\n");
        m
    } else {
        let mut m = "- ".to_owned();
        m.append(p.mention.as_str());
        m.append(" → ");
        m.append(p.candidate.as_str());
        m.append(" — total ");
        m.append(show_tenths(s.total, false).as_str());
        m.append("\n");
        m
    }
}

fn write_section(
    title: &str,
    x: Section,
    ps: &Vec<LabeledPair>,
    ms: &Vec<MatchScore>,
    w: &Weights,
) -> (r: String)
    requires
        ms@.len() == ps@.len(),
    ensures
        r@ == section_text(title@, x, rows(ps@), rows(ms@), *w),
{
    let at = find_section(x, ps, ms, w);
    let ghost pv = rows(ps@);
    let ghost mv = rows(ms@);
    let ghost av = positions(at@);
    let ghost goal = Seq::new(
        av.len(),
        |k: int| pair_line(pv[av[k]], mv[av[k]], x.detail),
    );
    let mut out: Vec<String> = Vec::new();
    let mut k: usize = 0;
    while k < at.len()
        invariant
            k <= at@.len(),
            ms@.len() == ps@.len(),
            pv == rows(ps@),
            mv == rows(ms@),
            av == positions(at@),
            forall|j: int| 0 <= j < at@.len() ==> #[trigger] at@[j] < ps@.len(),
            goal == Seq::new(av.len(), |k: int| pair_line(pv[av[k]], mv[av[k]], x.detail)),
            out@.len() == k,
            forall|j: int| 0 <= j < k ==> (#[trigger] out@[j])@ == goal[j],
        decreases at.len() - k,
    {
        assert(av[k as int] == at@[k as int]);
        assert(pv[av[k as int]] == ps@[at@[k as int] as int]@);
        assert(mv[av[k as int]] == ms@[at@[k as int] as int]@);
        out.push(write_pair(&ps[at[k]], &ms[at[k]], x.detail));
        k += 1;
    }
    assert(views(out@) =~= goal);
    assert(av.len() == at@.len());
    let mut m = "\n## ".to_owned();
    m.append(title);
    m.append("\n\n");
    let none = if at.len() == 0 {
        "_none_\n".to_owned()
    } else {
        String::new()
    };
    m.append(none.as_str());
    m.append(flatten(&out).as_str());
    m
}

fn write_sections(ps: &Vec<LabeledPair>, ms: &Vec<MatchScore>, w: &Weights) -> (r: String)
    requires
        ms@.len() == ps@.len(),
    ensures
        r@ == sections_text(rows(ps@), rows(ms@), *w),
{
    let mut m = write_section(
        "False positives at default (merged, but labeled non-match)",
        Section { is_match: false, bucket: Decision::Merge, ascending: false, detail: true },
        ps,
        ms,
        w,
    );
    m.append(
        write_section(
            "False negatives at default (labeled match, but rejected as new)",
            Section { is_match: true, bucket: Decision::New, ascending: true, detail: true },
            ps,
            ms,
            w,
        ).as_str(),
    );
    m.append(
        write_section(
            "Matches sent to review at default",
            Section { is_match: true, bucket: Decision::Review, ascending: true, detail: false },
            ps,
            ms,
            w,
        ).as_str(),
    );
    m.append(
        write_section(
            "Non-matches sent to review at default",
            Section { is_match: false, bucket: Decision::Review, ascending: false, detail: false },
            ps,
            ms,
            w,
        ).as_str(),
    );
    m
}

/// What an evaluation comes to.
#[derive(Debug)]
pub struct EvalOutcome {
    pub pairs: usize,
    pub baseline: Prf,
    /// Merge decisions only.
    pub probabilistic: Prf,
    /// Merge or review.
    pub merge_or_review: Prf,
    /// The share of pairs that land in review, in percent.
    pub review_percent: Double,
    pub report_md: String,
}

/// Reports an evaluation, given the scored pairs, their counts, what these come to, and the weights
/// as JSON.
pub fn run(
    generated: &str,
    path: &str,
    ps: &Vec<LabeledPair>,
    ms: &Vec<MatchScore>,
    w: &Weights,
    c: &EvalCounts,
    q: &Rated,
    weights_json: &str,
) -> (r: EvalOutcome)
    requires
        ms@.len() == ps@.len(),
        c.of(rows(ps@), rows(ms@), *w),
        q.sweep@.len() == SWEEP_STEPS,
    ensures
        r.pairs == ps@.len(),
        r.baseline == c.baseline,
        r.probabilistic == c.probabilistic,
        r.merge_or_review == c.merge_or_review,
        r.review_percent == q.review_percent,
        r.report_md@ == report_text(
            generated@,
            path@,
            rows(ps@),
            rows(ms@),
            *w,
            *c,
            *q,
            weights_json@,
        ),
{
    let n: usize = ps.len();
    proof {
        let labels = labels_of(rows(ps@));
        let mv = rows(ms@);
        law_every_pair_is_counted(predictions(Rule::Similar, mv, *w), labels);
        law_every_pair_is_counted(predictions(Rule::Merges, mv, *w), labels);
        law_every_pair_is_counted(predictions(Rule::MergesOrAsks, mv, *w), labels);
        assert(labels.len() == n);
    }
    let mut m = write_preface(generated, path, c);
    m.append(write_headline(c, q, w).as_str());
    m.append(write_best(&q.sweep).as_str());
    m.append(write_sweep(&q.sweep, &c.sweep).as_str());
    m.append(write_sections(ps, ms, w).as_str());
    m.append("\n## Weights used\n\n```json\n");
    m.append(weights_json);
    m.append("\n```\n");
    EvalOutcome {
        pairs: n,
        baseline: c.baseline,
        probabilistic: c.probabilistic,
        merge_or_review: c.merge_or_review,
        review_percent: q.review_percent,
        report_md: m,
    }
}

// ---------------------------------------------------------------------------------------------
// Decorrelation

/// How the decorrelation evaluation came out.
#[derive(Debug)]
pub struct DecorrelationOutcome {
    pub passed: bool,
    pub report_md: String,
}

/// Why the decorrelation evaluation could not be carried out.
#[derive(Debug)]
pub enum EvalError {
    /// The extractor failed.
    Extraction(ExtractError),
    /// The mention that is to be rejected is not there, or was resolved to nothing.
    NoMention,
    /// The rejection was refused.
    Decision(ResolveError),
}

/// What became of a mention: its status, its entity and its score.
#[derive(Debug)]
pub struct MentionState {
    pub status: String,
    pub entity: Option<String>,
    pub score: Option<i64>,
}

#[verifier::ext_equal]
pub struct StateModel {
    pub status: Seq<char>,
    pub entity: Option<Seq<char>>,
    pub score: Option<i64>,
}

impl View for MentionState {
    type V = StateModel;

    open spec fn view(&self) -> StateModel {
        StateModel { status: self.status@, entity: opt_view(self.entity), score: self.score }
    }
}

pub open spec fn opt_state(o: Option<MentionState>) -> Option<StateModel> {
    match o {
        Some(s) => Some(s@),
        None => None,
    }
}

/// The item at the address holds the mention.
pub open spec fn holds_mention(
    w: WorldModel,
    c: CandidateModel,
    source_ref: Seq<char>,
    mention: Seq<char>,
) -> bool {
    c.mention_text == mention && match item_of(w.source_items, c.source_item_id) {
        Some(s) => s.source_ref == source_ref,
        None => false,
    }
}

/// The position of the latest of the mentions of an item, the first of equals.
pub open spec fn latest_mention(
    w: WorldModel,
    n: int,
    source_ref: Seq<char>,
    mention: Seq<char>,
) -> Option<int>
    decreases n,
{
    if n <= 0 {
        None
    } else {
        let best = latest_mention(w, n - 1, source_ref, mention);
        let c = w.candidates[n - 1];
        if !holds_mention(w, c, source_ref, mention) {
            best
        } else {
            match best {
                Some(b) => if before(w.candidates[b].created_at, c.created_at) {
                    Some(n - 1)
                } else {
                    Some(b)
                },
                None => Some(n - 1),
            }
        }
    }
}

/// What became of a mention of an item.
pub open spec fn state_of(w: WorldModel, source_ref: Seq<char>, mention: Seq<char>) -> Option<
    StateModel,
> {
    match latest_mention(w, w.candidates.len() as int, source_ref, mention) {
        Some(i) => Some(
            StateModel {
                status: w.candidates[i].status,
                entity: w.candidates[i].best_match_entity_id,
                score: w.candidates[i].match_score,
            },
        ),
        None => None,
    }
}

fn find_mention(world: &World, source_ref: &str, mention: &str) -> (r: Option<usize>)
    ensures
        match r {
            Some(i) => i < world.candidates@.len() && latest_mention(
                world@,
                world@.candidates.len() as int,
                source_ref@,
                mention@,
            ) == Some(i as int),
            None => latest_mention(
                world@,
                world@.candidates.len() as int,
                source_ref@,
                mention@,
            ) is None,
        },
{
    let ghost w = world@;
    let mut best: Option<usize> = None;
    let mut i: usize = 0;
    while i < world.candidates.len()
        invariant
            i <= world.candidates@.len(),
            w == world@,
            match best {
                Some(b) => b < i && latest_mention(w, i as int, source_ref@, mention@) == Some(
                    b as int,
                ),
                None => latest_mention(w, i as int, source_ref@, mention@) is None,
            },
        decreases world.candidates.len() - i,
    {
        let c = &world.candidates[i];
        assert(w.candidates[i as int] == c@);
        let held = str_eq(c.mention_text.as_str(), mention) && match find_item(
            &world.source_items,
            c.source_item_id.as_str(),
        ) {
            Some(k) => str_eq(world.source_items[k].source_ref.as_str(), source_ref),
            None => false,
        };
        if held {
            best = match best {
                Some(b) => {
                    assert(w.candidates[b as int] == world.candidates@[b as int]@);
                    if str_before(
                        world.candidates[b].created_at.as_str(),
                        c.created_at.as_str(),
                    ) {
                        Some(i)
                    } else {
                        Some(b)
                    }
                },
                None => Some(i),
            };
        }
        i += 1;
    }
    assert(w.candidates.len() == world.candidates@.len());
    best
}

/// What became of a mention of an item.
pub fn candidate_status(world: &World, source_ref: &str, mention: &str) -> (r: Option<MentionState>)
    ensures
        opt_state(r) == state_of(world@, source_ref@, mention@),
{
    match find_mention(world, source_ref, mention) {
        Some(i) => {
            let c = &world.candidates[i];
            assert(world@.candidates[i as int] == c@);
            Some(
                MentionState {
                    status: c.status.clone(),
                    entity: opt_copy(&c.best_match_entity_id),
                    score: c.match_score,
                },
            )
        },
        None => None,
    }
}

/// What the evaluation observed.
#[derive(Debug)]
pub struct Trial {
    pub first: ResolveStats,
    /// The entity that the mentions are to be resolved to, if there is one.
    pub entity: Option<String>,
    pub s2: Option<MentionState>,
    pub s3: Option<MentionState>,
    /// What the rejection did, and the entity that it made.
    pub summary: String,
    pub made: String,
    pub decorrelated: bool,
    pub second: ResolveStats,
    pub s2_again: Option<MentionState>,
    pub s3_again: Option<MentionState>,
    /// Why either merge was refused.
    pub refusals: (Option<String>, Option<String>),
}

#[verifier::ext_equal]
pub struct TrialModel {
    pub first: ResolveStats,
    pub entity: Option<Seq<char>>,
    pub s2: Option<StateModel>,
    pub s3: Option<StateModel>,
    pub summary: Seq<char>,
    pub made: Seq<char>,
    pub decorrelated: bool,
    pub second: ResolveStats,
    pub s2_again: Option<StateModel>,
    pub s3_again: Option<StateModel>,
    pub refusals: (Option<Seq<char>>, Option<Seq<char>>),
}

impl View for Trial {
    type V = TrialModel;

    open spec fn view(&self) -> TrialModel {
        TrialModel {
            first: self.first,
            entity: opt_view(self.entity),
            s2: opt_state(self.s2),
            s3: opt_state(self.s3),
            summary: self.summary@,
            made: self.made@,
            decorrelated: self.decorrelated,
            second: self.second,
            s2_again: opt_state(self.s2_again),
            s3_again: opt_state(self.s3_again),
            refusals: (opt_view(self.refusals.0), opt_view(self.refusals.1)),
        }
    }
}

/// The mention was merged into the entity without a human.
pub open spec fn merged_into(s: Option<StateModel>, id: Seq<char>) -> bool {
    match s {
        Some(m) => m.status == "auto_merged"@ && m.entity == Some(id),
        None => false,
    }
}

/// The mention waits for a human.
pub open spec fn asked(s: Option<StateModel>) -> bool {
    match s {
        Some(m) => m.status == "pending_review"@,
        None => false,
    }
}

impl TrialModel {
    /// Both mentions were merged into the entity before any human decision.
    pub open spec fn merged_at_first(self, id: Seq<char>) -> bool {
        merged_into(self.s2, id) && merged_into(self.s3, id)
    }

    /// The mention stays away from the entity once a human parted them.
    pub open spec fn stays_away(self, s: Option<StateModel>, id: Seq<char>) -> bool {
        !merged_into(s, id) && (merged_into(s, self.made) || asked(s))
    }

    /// The guarantee holds.
    pub open spec fn passes(self) -> bool {
        match self.entity {
            None => false,
            Some(id) => {
                &&& self.merged_at_first(id)
                &&& self.made != id
                &&& self.decorrelated
                &&& self.stays_away(self.s2_again, id)
                &&& self.stays_away(self.s3_again, id)
                &&& self.refusals.0 is Some
                &&& self.refusals.1 is Some
            },
        }
    }
}

/// The line on a check.
pub open spec fn check_line(ok: bool, what: Seq<char>) -> Seq<char> {
    "- ["@ + (if ok {
        "PASS"@
    } else {
        "FAIL"@
    }) + "] "@ + what + "\n"@
}

fn check(md: &mut String, passed: &mut bool, ok: bool, what: &str)
    ensures
        final(md)@ == old(md)@ + check_line(ok, what@),
        *final(passed) == (*old(passed) && ok),
{
    let mut line = "- [".to_owned();
    if ok {
        line.append("PASS");
    } else {
        line.append("FAIL");
    }
    line.append("] ");
    line.append(what);
    line.append("\n");
    md.append(line.as_str());
    *passed = *passed && ok;
}

/// The digits behind the point of a number of millionths, without zeros at the end.
pub open spec fn fraction_text(f: nat, places: nat) -> Seq<char>
    decreases places,
{
    if places > 1 && f % 10 == 0 {
        fraction_text(f / 10, (places - 1) as nat)
    } else {
        padded(f, places)
    }
}

/// A number of millionths in decimal notation.
pub open spec fn millionths_text(n: int) -> Seq<char> {
    let m = if n < 0 {
        (-n) as nat
    } else {
        n as nat
    };
    (if n < 0 {
        "-"@
    } else {
        ""@
    }) + decimal(m / 1_000_000) + "."@ + fraction_text(m % 1_000_000, 6)
}

fn write_fraction(f: u64, places: u8) -> (r: String)
    ensures
        r@ == fraction_text(f as nat, places as nat),
    decreases places,
{
    if places > 1 && f % 10 == 0 {
        write_fraction(f / 10, places - 1)
    } else {
        pad(f, places)
    }
}

/// A number of millionths in decimal notation.
pub fn write_millionths(n: i64) -> (r: String)
    ensures
        r@ == millionths_text(n as int),
{
    let m: u64 = if n >= 0 {
        n as u64
    } else if n == i64::MIN {
        9223372036854775808
    } else {
        (-n) as u64
    };
    let mut t = if n < 0 {
        "-".to_owned()
    } else {
        "".to_owned()
    };
    t.append(decimal_of(m / 1_000_000).as_str());
    t.append(".");
    t.append(write_fraction(m % 1_000_000, 6).as_str());
    t
}

/// What became of a mention, in words.
pub open spec fn state_text(s: Option<StateModel>) -> Seq<char> {
    match s {
        None => "None"@,
        Some(m) => "Some(("@ + quoted(m.status) + ", "@ + (match m.entity {
            Some(e) => "Some("@ + quoted(e) + ")"@,
            None => "None"@,
        }) + ", "@ + (match m.score {
            Some(n) => "Some("@ + millionths_text(n as int) + ")"@,
            None => "None"@,
        }) + "))"@,
    }
}

fn write_state(s: &Option<MentionState>) -> (r: String)
    ensures
        r@ == state_text(opt_state(*s)),
{
    match s {
        None => "None".to_owned(),
        Some(m) => {
            let mut t = "Some((".to_owned();
            t.append(quote(m.status.as_str()).as_str());
            t.append(", ");
            match &m.entity {
                Some(e) => {
                    let mut x = "Some(".to_owned();
                    x.append(quote(e.as_str()).as_str());
                    x.append(")");
                    t.append(x.as_str());
                },
                None => {
                    t.append("None");
                },
            }
            t.append(", ");
            match m.score {
                Some(n) => {
                    let mut x = "Some(".to_owned();
                    x.append(write_millionths(n).as_str());
                    x.append(")");
                    t.append(x.as_str());
                },
                None => {
                    t.append("None");
                },
            }
            t.append("))");
            t
        },
    }
}

/// The two mentions, in words.
pub open spec fn states_text(a: Option<StateModel>, b: Option<StateModel>) -> Seq<char> {
    "  s2: "@ + state_text(a) + "\n  s3: "@ + state_text(b) + "\n\n"@
}

fn write_states(a: &Option<MentionState>, b: &Option<MentionState>) -> (r: String)
    ensures
        r@ == states_text(opt_state(*a), opt_state(*b)),
{
    let mut t = "  s2: ".to_owned();
    t.append(write_state(a).as_str());
    t.append("\n  s3: ");
    t.append(write_state(b).as_str());
    t.append("\n\n");
    t
}

/// The first step.
pub open spec fn first_step(generated: Seq<char>, s: ResolveStats) -> Seq<char> {
    "# Decorrelation evaluation\n\nGenerated "@ + generated
        + " by `enargeia eval decorrelation` on a scratch database (regex extractor).\n\n## Step 1 — initial resolution\n\n"@
        + decimal(s.items_processed as nat) + " items, "@ + decimal(s.auto_merged as nat)
        + " auto-merged mentions, "@ + decimal(s.new_entities as nat) + " new entities, "@
        + decimal(s.pending_review as nat) + " review.\n\n"@
}

fn write_first(generated: &str, s: &ResolveStats) -> (r: String)
    ensures
        r@ == first_step(generated@, *s),
{
    let mut m = "# Decorrelation evaluation\n\nGenerated ".to_owned();
    m.append(generated);
    m.append(
        " by `enargeia eval decorrelation` on a scratch database (regex extractor).\n\n## Step 1 — initial resolution\n\n",
    );
    m.append(decimal_of(s.items_processed as u64).as_str());
    m.append(" items, ");
    m.append(decimal_of(s.auto_merged as u64).as_str());
    m.append(" auto-merged mentions, ");
    m.append(decimal_of(s.new_entities as u64).as_str());
    m.append(" new entities, ");
    m.append(decimal_of(s.pending_review as u64).as_str());
    m.append(" review.\n\n");
    m
}

/// The third step.
pub open spec fn third_step(s: ResolveStats) -> Seq<char> {
    "## Step 3 — full re-resolution with the decorrelation in place\n\n"@ + decimal(
        s.items_processed as nat,
    ) + " items, "@ + decimal(s.auto_merged as nat) + " auto-merged, "@ + decimal(
        s.new_entities as nat,
    ) + " new, "@ + decimal(s.pending_review as nat) + " review.\n\n"@
}

fn write_third(s: &ResolveStats) -> (r: String)
    ensures
        r@ == third_step(*s),
{
    let mut m = "## Step 3 — full re-resolution with the decorrelation in place\n\n".to_owned();
    m.append(decimal_of(s.items_processed as u64).as_str());
    m.append(" items, ");
    m.append(decimal_of(s.auto_merged as u64).as_str());
    m.append(" auto-merged, ");
    m.append(decimal_of(s.new_entities as u64).as_str());
    m.append(" new, ");
    m.append(decimal_of(s.pending_review as u64).as_str());
    m.append(" review.\n\n");
    m
}

/// The checks on a mention after the second resolution.
pub open spec fn again_checks(
    t: TrialModel,
    label: Seq<char>,
    s: Option<StateModel>,
    id: Seq<char>,
) -> Seq<char> {
    check_line(
        !merged_into(s, id),
        label + ": 'Mistral' did NOT auto-merge back into 'Mistral AI'"@,
    ) + check_line(
        merged_into(s, t.made) || asked(s),
        label + ": resolved to the human-created entity or sent to review"@,
    )
}

/// Why a merge was refused.
pub open spec fn refusal_text(o: Option<Seq<char>>) -> Seq<char> {
    match o {
        Some(t) => t,
        None => "merged (unexpected)"@,
    }
}

/// The report on a trial.
pub open spec fn trial_text(t: TrialModel, generated: Seq<char>) -> Seq<char> {
    match t.entity {
        None => first_step(generated, t.first) + check_line(
            false,
            "entity 'Mistral AI' exists after resolution"@,
        ),
        Some(id) => first_step(generated, t.first) + check_line(
            t.merged_at_first(id),
            "both 'Mistral' mentions auto-merged into 'Mistral AI' before any human decision (sanity)"@,
        ) + "\n"@ + states_text(t.s2, t.s3) + "## Step 2 — human rejects the s2 merge\n\n"@
            + t.summary + "\n\n"@ + check_line(
            t.made != id,
            "reject created a distinct entity for the mention"@,
        ) + check_line(
            t.decorrelated,
            "the new entity and 'Mistral AI' are decorrelated"@,
        ) + third_step(t.second) + states_text(t.s2_again, t.s3_again) + again_checks(
            t,
            "s2"@,
            t.s2_again,
            id,
        ) + again_checks(t, "s3"@, t.s3_again, id) + check_line(
            t.refusals.0 is Some,
            "merge(Mistral AI ← new) refused"@,
        ) + check_line(t.refusals.1 is Some, "merge(new ← Mistral AI) refused"@)
            + "## Step 4 — merge guard\n\n- "@ + refusal_text(t.refusals.0) + "\n- "@
            + refusal_text(t.refusals.1) + "\n\n## Result: "@ + (if t.passes() {
            "PASS"@
        } else {
            "FAIL"@
        }) + "\n"@,
    }
}

fn was_merged(s: &Option<MentionState>, id: &str) -> (r: bool)
    ensures
        r == merged_into(opt_state(*s), id@),
{
    match s {
        Some(m) => str_eq(m.status.as_str(), "auto_merged") && match &m.entity {
            Some(e) => str_eq(e.as_str(), id),
            None => false,
        },
        None => false,
    }
}

fn was_asked(s: &Option<MentionState>) -> (r: bool)
    ensures
        r == asked(opt_state(*s)),
{
    match s {
        Some(m) => str_eq(m.status.as_str(), "pending_review"),
        None => false,
    }
}

fn check_again(
    md: &mut String,
    passed: &mut bool,
    t: &Trial,
    label: &str,
    s: &Option<MentionState>,
    id: &str,
)
    ensures
        final(md)@ == old(md)@ + again_checks(t@, label@, opt_state(*s), id@),
        *final(passed) == (*old(passed) && t@.stays_away(opt_state(*s), id@)),
{
    let ghost begin = md@;
    let mut away = label.to_owned();
    away.append(": 'Mistral' did NOT auto-merge back into 'Mistral AI'");
    check(md, passed, !was_merged(s, id), away.as_str());
    let mut settled = label.to_owned();
    settled.append(": resolved to the human-created entity or sent to review");
    check(
        md,
        passed,
        was_merged(s, t.made.as_str()) || was_asked(s),
        settled.as_str(),
    );
    assert(md@ =~= begin + again_checks(t@, label@, opt_state(*s), id@));
}

/// Judges what the evaluation observed, and reports it.
pub fn judge(t: &Trial, generated: &str) -> (r: DecorrelationOutcome)
    ensures
        r.passed == t@.passes(),
        r.report_md@ == trial_text(t@, generated@),
{
    let mut md = write_first(generated, &t.first);
    let mut passed = true;
    let id = match opt_copy(&t.entity) {
        Some(id) => id,
        None => {
            check(
                &mut md,
                &mut passed,
                false,
                "entity 'Mistral AI' exists after resolution",
            );
            return DecorrelationOutcome { passed: false, report_md: md };
        },
    };
    check(
        &mut md,
        &mut passed,
        was_merged(&t.s2, id.as_str()) && was_merged(&t.s3, id.as_str()),
        "both 'Mistral' mentions auto-merged into 'Mistral AI' before any human decision (sanity)",
    );
    md.append("\n");
    md.append(write_states(&t.s2, &t.s3).as_str());
    md.append("## Step 2 — human rejects the s2 merge\n\n");
    md.append(t.summary.as_str());
    md.append("\n\n");
    check(
        &mut md,
        &mut passed,
        !str_eq(t.made.as_str(), id.as_str()),
        "reject created a distinct entity for the mention",
    );
    check(
        &mut md,
        &mut passed,
        t.decorrelated,
        "the new entity and 'Mistral AI' are decorrelated",
    );
    md.append(write_third(&t.second).as_str());
    md.append(write_states(&t.s2_again, &t.s3_again).as_str());
    check_again(&mut md, &mut passed, t, "s2", &t.s2_again, id.as_str());
    check_again(&mut md, &mut passed, t, "s3", &t.s3_again, id.as_str());
    check(
        &mut md,
        &mut passed,
        t.refusals.0.is_some(),
        "merge(Mistral AI ← new) refused",
    );
    check(
        &mut md,
        &mut passed,
        t.refusals.1.is_some(),
        "merge(new ← Mistral AI) refused",
    );
    md.append("## Step 4 — merge guard\n\n- ");
    match &t.refusals.0 {
        Some(m) => {
            md.append(m.as_str());
        },
        None => {
            md.append("merged (unexpected)");
        },
    }
    md.append("\n- ");
    match &t.refusals.1 {
        Some(m) => {
            md.append(m.as_str());
        },
        None => {
            md.append("merged (unexpected)");
        },
    }
    md.append("\n\n## Result: ");
    if passed {
        md.append("PASS");
    } else {
        md.append("FAIL");
    }
    md.append("\n");
    DecorrelationOutcome { passed, report_md: md }
}

/// The most items that a resolution of the evaluation takes up.
pub const TRIAL_ITEMS: i64 = 100;

/// The counts before anything was resolved.
pub open spec fn no_stats() -> ResolveStats {
    ResolveStats {
        items_processed: 0,
        auto_merged: 0,
        new_entities: 0,
        needs_llm: 0,
        pending_review: 0,
    }
}

/// An item of the evaluation's corpus.
pub open spec fn corpus_item(id: Seq<char>, text: Seq<char>, date: Seq<char>) -> RawModel {
    RawModel {
        source_type: "eval"@,
        source_ref: "eval://"@ + id,
        title: Some(id),
        text,
        license_class: "commercial_clean"@,
        published_at: Some(date + "T00:00:00+00:00"@),
    }
}

fn raw(id: &str, text: &str, date: &str) -> (r: RawItem)
    ensures
        r@ == corpus_item(id@, text@, date@),
{
    let mut source_ref = "eval://".to_owned();
    source_ref.append(id);
    let mut published = date.to_owned();
    published.append("T00:00:00+00:00");
    RawItem {
        source_type: "eval".to_owned(),
        source_ref,
        title: Some(id.to_owned()),
        text: text.to_owned(),
        license_class: "commercial_clean".to_owned(),
        published_at: Some(published),
    }
}

/// The id of the first entity of a name.
pub open spec fn named(es: Seq<EntityModel>, name: Seq<char>) -> Option<Seq<char>>
    decreases es.len(),
{
    if es.len() == 0 {
        None
    } else if es[0].canonical_name == name {
        Some(es[0].id)
    } else {
        named(es.drop_first(), name)
    }
}

fn id_of_named(world: &World, name: &str) -> (r: Option<String>)
    ensures
        opt_view(r) == named(world@.entities, name@),
{
    let ghost all = world@.entities;
    let mut i: usize = 0;
    assert(all.skip(0) =~= all);
    while i < world.entities.len()
        invariant
            i <= world.entities@.len(),
            all == rows(world.entities@),
            named(all, name@) == named(all.skip(i as int), name@),
        decreases world.entities.len() - i,
    {
        let e = &world.entities[i];
        assert(all.skip(i as int)[0] == e@);
        assert(all.skip(i as int).drop_first() =~= all.skip(i + 1));
        if str_eq(e.canonical_name.as_str(), name) {
            return Some(e.id.clone());
        }
        i += 1;
    }
    None
}

/// The world with its mentions and relations forgotten and its items pending again; entities and
/// human decisions stay.
pub open spec fn unresolved(w: WorldModel) -> WorldModel {
    WorldModel {
        candidates: seq![],
        edges: seq![],
        source_items: Seq::new(
            w.source_items.len(),
            |i: int| SourceModel { status: "pending"@, ..w.source_items[i] },
        ),
        ..w
    }
}

/// Forgets mentions and relations, so that the whole corpus is resolved from scratch.
pub fn forget_resolution(world: &mut World)
    ensures
        final(world)@ == unresolved(old(world)@),
{
    let ghost w = world@;
    let ghost goal = unresolved(w).source_items;
    world.candidates = Vec::new();
    world.edges = Vec::new();
    assert(rows(world.candidates@) =~= seq![]);
    assert(rows(world.edges@) =~= seq![]);
    let ghost w1 = world@;
    let mut i: usize = 0;
    while i < world.source_items.len()
        invariant
            i <= world.source_items@.len(),
            world.source_items@.len() == w.source_items.len(),
            goal == unresolved(w).source_items,
            world@ == (WorldModel { source_items: rows(world.source_items@), ..w1 }),
            forall|j: int| 0 <= j < i ==> (#[trigger] rows(world.source_items@)[j]) == goal[j],
            forall|j: int|
                i <= j < w.source_items.len() ==> (#[trigger] rows(world.source_items@)[j])
                    == w.source_items[j],
        decreases world.source_items.len() - i,
    {
        let ghost cur = rows(world.source_items@);
        assert(cur[i as int] == w.source_items[i as int]);
        world.source_items[i].status = "pending".to_owned();
        assert forall|j: int| 0 <= j < cur.len() && j != i implies (#[trigger] rows(
            world.source_items@,
        )[j]) == cur[j] by {}
        assert(rows(world.source_items@)[i as int] == goal[i as int]);
        i += 1;
    }
    assert(rows(world.source_items@) =~= goal);
    assert(world@ =~= unresolved(w));
}

/// The world after an attempted merge, and why it was refused, if it was.
pub open spec fn attempted(
    w: WorldModel,
    keep: Seq<char>,
    absorb: Seq<char>,
    now: Seq<char>,
) -> (WorldModel, Option<Seq<char>>) {
    let k = entity_of(w.entities, keep);
    let a = entity_of(w.entities, absorb);
    if keep == absorb {
        (w, Some("keep_id and absorb_id must differ"@))
    } else if has_pair(w.decorrelations, ordered(keep, absorb)) {
        (
            w,
            Some(
                "refusing merge: "@ + keep + " and "@ + absorb
                    + " were previously decorrelated by a human decision"@,
            ),
        )
    } else if k is None || a is None {
        (w, Some("both entities must exist to merge"@))
    } else {
        (merged(w, k->0, a->0, now), None)
    }
}

fn attempt(world: &mut World, keep: &str, absorb: &str) -> (r: Option<String>)
    ensures
        exists|now: Seq<char>|
            is_instant(now) && (final(world)@, opt_view(r)) == #[trigger] attempted(
                old(world)@,
                keep@,
                absorb@,
                now,
            ),
{
    let t = crate::models::now();
    let r = match merge_entities_at(world, keep, absorb, t.as_str()) {
        Ok(()) => None,
        Err(e) => Some(e.message()),
    };
    assert((world@, opt_view(r)) == attempted(old(world)@, keep@, absorb@, t@));
    r
}

/// What chance brings to a trial: the stamps of the three items, what each item showed in the
/// first resolution, the stamps of the rejection, what each item showed in the second
/// resolution, and the times of the two merges.
#[verifier::ext_equal]
pub struct Course {
    pub items: (StampModel, StampModel, StampModel),
    pub first: Seq<ItemTrace>,
    pub rejection: (StampModel, StampModel, StampModel),
    pub second: Seq<ItemTrace>,
    pub merges: (Seq<char>, Seq<char>),
}

/// Why a trial ends early: the mention is not there, or its rejection is refused.
pub enum Halt {
    NoMention,
    Refused(ResolveErrorKind),
}

/// The world with the corpus of the evaluation.
pub open spec fn with_corpus(w: WorldModel, s: (StampModel, StampModel, StampModel)) -> WorldModel {
    let s1 = corpus_item(
        "s1"@,
        "Mistral AI raised new funding from investors in Paris."@,
        "2026-01-01"@,
    );
    let s2 = corpus_item("s2"@, "Mistral said the new model is open to everyone."@, "2026-02-01"@);
    let s3 = corpus_item("s3"@, "Mistral announced a partnership with Nvidia."@, "2026-03-01"@);
    ingested(ingested(ingested(w, s1, s.0), s2, s.1), s3, s.2)
}

/// The items that a resolution takes up.
pub open spec fn taken_up(w: WorldModel) -> Seq<SourceModel> {
    limited(pending(w.source_items), TRIAL_ITEMS)
}

/// The world after a resolution, and its counts.
pub open spec fn after_resolution(w: WorldModel, traces: Seq<ItemTrace>, weights: Weights) -> (
    WorldModel,
    ResolveStats,
) {
    all_resolved(with_index(w), taken_up(w), traces, weights)
}

/// The rejection of the mention of the second item: the world after it, the summary, and the
/// entity that the mention then has.
pub open spec fn after_rejection(w: WorldModel, s: (StampModel, StampModel, StampModel)) -> Result<
    (WorldModel, Seq<char>, Seq<char>),
    Halt,
> {
    match latest_mention(w, w.candidates.len() as int, "eval://s2"@, "Mistral"@) {
        None => Err(Halt::NoMention),
        Some(i) => {
            let d = DecisionModel {
                candidate_id: w.candidates[i].id,
                decision: "reject"@,
                actor: "eval"@,
                reason: Some("not the same company"@),
            };
            match decided(w, d, s.0, s.1, s.2) {
                Err(k) => Err(Halt::Refused(k)),
                Ok((after, summary)) => match candidate_of(after.candidates, d.candidate_id) {
                    Some(c) => match c.best_match_entity_id {
                        Some(made) => Ok((after, summary, made)),
                        None => Err(Halt::NoMention),
                    },
                    None => Err(Halt::NoMention),
                },
            }
        },
    }
}

/// A trial on a world: the world after it and what was observed, or why it ended early.
pub open spec fn trial(w: WorldModel, c: Course, weights: Weights) -> Result<
    (WorldModel, TrialModel),
    Halt,
> {
    let (w1, first) = after_resolution(with_corpus(w, c.items), c.first, weights);
    match named(w1.entities, "Mistral AI"@) {
        None => Ok(
            (
                w1,
                TrialModel {
                    first,
                    entity: None,
                    s2: None,
                    s3: None,
                    summary: ""@,
                    made: ""@,
                    decorrelated: false,
                    second: no_stats(),
                    s2_again: None,
                    s3_again: None,
                    refusals: (None, None),
                },
            ),
        ),
        Some(id) => match after_rejection(w1, c.rejection) {
            Err(h) => Err(h),
            Ok((w2, summary, made)) => {
                let (w3, second) = after_resolution(unresolved(w2), c.second, weights);
                let (w4, a) = attempted(w3, id, made, c.merges.0);
                let (w5, b) = attempted(w4, made, id, c.merges.1);
                Ok(
                    (
                        w5,
                        TrialModel {
                            first,
                            entity: Some(id),
                            s2: state_of(w1, "eval://s2"@, "Mistral"@),
                            s3: state_of(w1, "eval://s3"@, "Mistral"@),
                            summary,
                            made,
                            decorrelated: has_pair(w2.decorrelations, ordered(made, id)),
                            second,
                            s2_again: state_of(w3, "eval://s2"@, "Mistral"@),
                            s3_again: state_of(w3, "eval://s3"@, "Mistral"@),
                            refusals: (a, b),
                        },
                    ),
                )
            },
        },
    }
}

/// The three stamps are drawn.
pub open spec fn are_three_stamps(s: (StampModel, StampModel, StampModel)) -> bool {
    is_stamp(s.0) && is_stamp(s.1) && is_stamp(s.2)
}

/// The stamps and the times of a course are drawn.
pub open spec fn is_drawn(c: Course) -> bool {
    &&& are_three_stamps(c.items)
    &&& are_three_stamps(c.rejection)
    &&& is_instant(c.merges.0)
    &&& is_instant(c.merges.1)
}

/// The mentions of a course are those that stand in the texts, and what is random in it is drawn.
pub open spec fn followed(w: WorldModel, c: Course, weights: Weights) -> bool {
    let begin = with_corpus(w, c.items);
    let w1 = after_resolution(begin, c.first, weights).0;
    &&& is_drawn(c)
    &&& traced(RegexExtractor, taken_up(begin), c.first)
    &&& named(w1.entities, "Mistral AI"@) is Some ==> match after_rejection(w1, c.rejection) {
        Ok((w2, _, _)) => traced(RegexExtractor, taken_up(unresolved(w2)), c.second),
        Err(_) => true,
    }
}

/// A trial ended early, with the world as the first resolution left it.
pub open spec fn halted(
    w: WorldModel,
    c: Course,
    weights: Weights,
    h: Halt,
    end: WorldModel,
) -> bool {
    &&& followed(w, c, weights)
    &&& trial(w, c, weights) == Err::<(WorldModel, TrialModel), Halt>(h)
    &&& end == after_resolution(with_corpus(w, c.items), c.first, weights).0
}

/// The extractor failed in the first resolution of a trial.
pub open spec fn stopped_at_first(
    w: WorldModel,
    s: (StampModel, StampModel, StampModel),
    n: int,
    traces: Seq<ItemTrace>,
    weights: Weights,
    end: WorldModel,
) -> bool {
    let begin = with_corpus(w, s);
    are_three_stamps(s) && stopped(
        RegexExtractor,
        with_index(begin),
        taken_up(begin),
        n,
        traces,
        weights,
        end,
    )
}

/// The extractor failed in the second resolution of a trial.
pub open spec fn stopped_at_second(
    w: WorldModel,
    c: Course,
    n: int,
    weights: Weights,
    end: WorldModel,
) -> bool {
    let begin = with_corpus(w, c.items);
    let w1 = after_resolution(begin, c.first, weights).0;
    &&& is_drawn(c)
    &&& traced(RegexExtractor, taken_up(begin), c.first)
    &&& named(w1.entities, "Mistral AI"@) is Some
    &&& after_rejection(w1, c.rejection) matches Ok((w2, _, _)) && stopped(
        RegexExtractor,
        with_index(unresolved(w2)),
        taken_up(unresolved(w2)),
        n,
        c.second,
        weights,
        end,
    )
}

/// A merge that a human rejected stays rejected: where the mention had been merged into the
/// entity, the entity made for it is another one, the two are decorrelated, and a merge of them
/// is refused both ways after everything was resolved again.
pub proof fn law_rejected_merge_is_guarded(w: WorldModel, c: Course, weights: Weights)
    requires
        trial(w, c, weights) is Ok,
        forall|i: int, j: int|
            #![trigger trial_mentions(w, c, weights)[i], trial_mentions(w, c, weights)[j]]
            0 <= i < j < trial_mentions(w, c, weights).len() ==> trial_mentions(
                w,
                c,
                weights,
            )[i].id != trial_mentions(w, c, weights)[j].id,
    ensures
        ({
            let t = trial(w, c, weights)->Ok_0.1;
            t.entity is Some && merged_into(t.s2, t.entity->0) ==> t.made != t.entity->0
                && t.decorrelated && t.refusals.0 is Some && t.refusals.1 is Some
        }),
{
    let (w1, first) = after_resolution(with_corpus(w, c.items), c.first, weights);
    let t = trial(w, c, weights)->Ok_0.1;
    if t.entity is Some && merged_into(t.s2, t.entity->0) {
        let id = t.entity->0;
        let i = latest_mention(w1, w1.candidates.len() as int, "eval://s2"@, "Mistral"@)->0;
        lemma_latest_mention(w1, w1.candidates.len() as int, "eval://s2"@, "Mistral"@);
        let cid = w1.candidates[i].id;
        lemma_only_candidate(w1.candidates, i);
        let s = c.rejection;
        let d = DecisionModel {
            candidate_id: cid,
            decision: "reject"@,
            actor: "eval"@,
            reason: Some("not the same company"@),
        };
        reveal_strlit("reject");
        reveal_strlit("confirm");
        assert("reject"@.len() != "confirm"@.len());
        let (w2, summary) = decided(w1, d, s.0, s.1, s.2)->Ok_0;
        law_rejection_parts(w1, d, s.0, s.1, s.2, ordered(s.0.id, id));
        let after = judged(w1.candidates, cid, Some(s.0.id), "rejected"@);
        assert(w2.candidates == after);
        assert forall|j: int, k: int| 0 <= j < k < after.len() implies after[j].id
            != after[k].id by {
            assert(trial_mentions(w, c, weights)[j].id != trial_mentions(w, c, weights)[k].id);
        }
        lemma_only_candidate(after, i);
        assert(t.made == s.0.id);
        law_decorrelation_is_symmetric(w2.decorrelations, t.made, id);
        let w3 = unresolved(w2);
        law_resolution_keeps(with_index(w3), taken_up(w3), c.second, weights);
    }
}

/// The mentions after the first resolution of a trial.
pub open spec fn trial_mentions(w: WorldModel, c: Course, weights: Weights) -> Seq<CandidateModel> {
    after_resolution(with_corpus(w, c.items), c.first, weights).0.candidates
}

proof fn lemma_latest_mention(w: WorldModel, n: int, source_ref: Seq<char>, mention: Seq<char>)
    requires
        n <= w.candidates.len(),
    ensures
        latest_mention(w, n, source_ref, mention) matches Some(i) ==> 0 <= i < n,
    decreases n,
{
    if n > 0 {
        lemma_latest_mention(w, n - 1, source_ref, mention);
    }
}

proof fn lemma_judged_candidate(
    cs: Seq<CandidateModel>,
    id: Seq<char>,
    e: Seq<char>,
    status: Seq<char>,
)
    requires
        candidate_of(cs, id) is Some,
    ensures
        candidate_of(judged(cs, id, Some(e), status), id) matches Some(c)
            && c.best_match_entity_id == Some(e),
    decreases cs.len(),
{
    let after = judged(cs, id, Some(e), status);
    if cs[0].id != id {
        assert(after.drop_first() =~= judged(cs.drop_first(), id, Some(e), status));
        lemma_judged_candidate(cs.drop_first(), id, e, status);
    }
}

proof fn lemma_only_candidate(cs: Seq<CandidateModel>, i: int)
    requires
        0 <= i < cs.len(),
        forall|j: int, k: int|
            0 <= j < k < cs.len() ==> (#[trigger] cs[j]).id != (#[trigger] cs[k]).id,
    ensures
        candidate_of(cs, cs[i].id) == Some(cs[i]),
    decreases i,
{
    if i > 0 {
        let rest = cs.drop_first();
        assert forall|j: int, k: int| 0 <= j < k < rest.len() implies (#[trigger] rest[j]).id != (
        #[trigger] rest[k]).id by {
            assert(cs[j + 1].id != cs[k + 1].id);
        }
        assert(cs[0].id != cs[i].id);
        assert(rest[i - 1] == cs[i]);
        lemma_only_candidate(rest, i - 1);
    }
}

/// Offers the three items of a trial.
fn offer_corpus(world: &mut World)
    ensures
        exists|s: (StampModel, StampModel, StampModel)|
            are_three_stamps(s) && final(world)@ == #[trigger] with_corpus(old(world)@, s),
{
    let ghost w = world@;
    let i1 = raw("s1", "Mistral AI raised new funding from investors in Paris.", "2026-01-01");
    let _ = ingest_item(world, &i1);
    let ghost a1 = choose|s: StampModel|
        is_stamp(s) && #[trigger] ingested(w, i1@, s) == world@;
    let ghost v1 = world@;
    let i2 = raw("s2", "Mistral said the new model is open to everyone.", "2026-02-01");
    let _ = ingest_item(world, &i2);
    let ghost a2 = choose|s: StampModel|
        is_stamp(s) && #[trigger] ingested(v1, i2@, s) == world@;
    let ghost v2 = world@;
    let i3 = raw("s3", "Mistral announced a partnership with Nvidia.", "2026-03-01");
    let _ = ingest_item(world, &i3);
    let ghost a3 = choose|s: StampModel|
        is_stamp(s) && #[trigger] ingested(v2, i3@, s) == world@;
    assert(world@ == with_corpus(w, (a1, a2, a3)));
}

/// Shows the sticky-decorrelation guarantee on a scratch world. Uses the regex extractor, so that
/// the result does not depend on a downloaded model. Steps:
/// 1. Ingest three items; "Mistral" mentions auto-merge into the "Mistral AI" entity.
/// 2. A human rejects one of those merges: a new entity is created and the pair is decorrelated.
/// 3. The whole corpus is resolved again from scratch (entities and decorrelations kept).
/// 4. Judged: no "Mistral" mention auto-merges into "Mistral AI" again; a merge is refused both
///    ways.
#[verifier::rlimit(30)]
pub fn run_decorrelation(world: &mut World, weights: &Weights, generated: &str) -> (r: Result<
    DecorrelationOutcome,
    EvalError,
>)
    requires
        weights.wf(),
    ensures
        match r {
            Ok(o) => exists|c: Course| #[trigger]
                followed(old(world)@, c, *weights) && (trial(old(world)@, c, *weights) matches Ok(
                    (w, t),
                ) && final(world)@ == w && o.passed == t.passes() && o.report_md@ == trial_text(
                    t,
                    generated@,
                )),
            Err(EvalError::NoMention) => exists|c: Course| #[trigger]
                halted(old(world)@, c, *weights, Halt::NoMention, final(world)@),
            Err(EvalError::Decision(e)) => exists|c: Course| #[trigger]
                halted(old(world)@, c, *weights, Halt::Refused(e.spec_kind()), final(world)@),
            Err(EvalError::Extraction(_)) => {
                ||| exists|s: (StampModel, StampModel, StampModel), n: int, traces: Seq<ItemTrace>|
                    #[trigger]
                    stopped_at_first(old(world)@, s, n, traces, *weights, final(world)@)
                ||| exists|c: Course, n: int| #[trigger]
                    stopped_at_second(old(world)@, c, n, *weights, final(world)@)
            },
        },
{
    let ghost w = world@;
    offer_corpus(world);
    let ghost items = choose|s: (StampModel, StampModel, StampModel)|
        are_three_stamps(s) && world@ == #[trigger] with_corpus(w, s);
    let ghost begin = world@;
    assert(begin == with_corpus(w, items));

    let first = match resolve_pending(world, &RegexExtractor, weights, TRIAL_ITEMS) {
        Ok(s) => s,
        Err(e) => {
            proof {
                let (n, traces) = choose|n: int, traces: Seq<ItemTrace>| #[trigger]
                    stopped(
                        RegexExtractor,
                        with_index(begin),
                        taken_up(begin),
                        n,
                        traces,
                        *weights,
                        world@,
                    );
                assert(stopped_at_first(w, items, n, traces, *weights, world@));
            }
            return Err(EvalError::Extraction(e));
        },
    };
    let ghost w1 = world@;
    let ghost t1 = choose|traces: Seq<ItemTrace>| #[trigger]
        traced(RegexExtractor, taken_up(begin), traces) && (w1, first) == all_resolved(
            with_index(begin),
            taken_up(begin),
            traces,
            *weights,
        );
    let ghost c1 = Course {
        items,
        first: t1,
        rejection: items,
        second: seq![],
        merges: (items.0.now, items.0.now),
    };
    assert((w1, first) == after_resolution(begin, t1, *weights));

    let id = match id_of_named(world, "Mistral AI") {
        Some(id) => id,
        None => {
            let t = Trial {
                first,
                entity: None,
                s2: None,
                s3: None,
                summary: "".to_owned(),
                made: "".to_owned(),
                decorrelated: false,
                second: ResolveStats::default(),
                s2_again: None,
                s3_again: None,
                refusals: (None, None),
            };
            let o = judge(&t, generated);
            assert(followed(w, c1, *weights));
            assert(trial(w, c1, *weights) == Ok::<(WorldModel, TrialModel), Halt>((world@, t@)));
            return Ok(o);
        },
    };
    let s2 = candidate_status(world, "eval://s2", "Mistral");
    let s3 = candidate_status(world, "eval://s3", "Mistral");

    let rejected = match find_mention(world, "eval://s2", "Mistral") {
        Some(i) => {
            assert(w1.candidates[i as int] == world.candidates@[i as int]@);
            world.candidates[i].id.clone()
        },
        None => {
            assert(halted(w, c1, *weights, Halt::NoMention, world@));
            return Err(EvalError::NoMention);
        },
    };
    let ghost d = DecisionModel {
        candidate_id: rejected@,
        decision: "reject"@,
        actor: "eval"@,
        reason: Some("not the same company"@),
    };
    let decision = apply_decision(
        world,
        rejected.as_str(),
        "reject",
        "eval",
        Some("not the same company"),
    );
    let ghost (b1, b2, b3) = choose|s: StampModel, p: StampModel, t: StampModel|
        is_stamp(s) && is_stamp(p) && is_stamp(t) && match #[trigger] decided(w1, d, s, p, t) {
            Ok((after, summary)) => world@ == after && outcome(decision) == Ok::<
                Seq<char>,
                ResolveErrorKind,
            >(summary),
            Err(k) => world@ == w1 && outcome(decision) == Err::<Seq<char>, ResolveErrorKind>(k),
        };
    let ghost c2 = Course { rejection: (b1, b2, b3), ..c1 };
    let summary = match decision {
        Ok(m) => m,
        Err(e) => {
            assert(halted(w, c2, *weights, Halt::Refused(e.spec_kind()), world@));
            return Err(EvalError::Decision(e));
        },
    };
    let ghost w2 = world@;
    proof {
        reveal_strlit("reject");
        reveal_strlit("confirm");
        assert("reject"@.len() != "confirm"@.len());
        lemma_judged_candidate(w1.candidates, rejected@, b1.id, "rejected"@);
        assert(w2.candidates == judged(w1.candidates, rejected@, Some(b1.id), "rejected"@));
    }
    let found = match find_candidate(&world.candidates, rejected.as_str()) {
        Some(i) => opt_copy(&world.candidates[i].best_match_entity_id),
        None => None,
    };
    let made = match found {
        Some(m) => m,
        None => {
            return Err(EvalError::NoMention);
        },
    };
    assert(after_rejection(w1, c2.rejection) == Ok::<(WorldModel, Seq<char>, Seq<char>), Halt>(
        (w2, summary@, made@),
    ));
    let decorrelated = is_decorrelated(world, made.as_str(), id.as_str());

    forget_resolution(world);
    let ghost blank = world@;
    let second = match resolve_pending(world, &RegexExtractor, weights, TRIAL_ITEMS) {
        Ok(s) => s,
        Err(e) => {
            proof {
                let (n, traces) = choose|n: int, traces: Seq<ItemTrace>| #[trigger]
                    stopped(
                        RegexExtractor,
                        with_index(blank),
                        taken_up(blank),
                        n,
                        traces,
                        *weights,
                        world@,
                    );
                let c = Course { second: traces, ..c2 };
                assert(stopped_at_second(w, c, n, *weights, world@));
            }
            return Err(EvalError::Extraction(e));
        },
    };
    let ghost w3 = world@;
    let ghost t2 = choose|traces: Seq<ItemTrace>| #[trigger]
        traced(RegexExtractor, taken_up(blank), traces) && (w3, second) == all_resolved(
            with_index(blank),
            taken_up(blank),
            traces,
            *weights,
        );
    let s2_again = candidate_status(world, "eval://s2", "Mistral");
    let s3_again = candidate_status(world, "eval://s3", "Mistral");

    let a = attempt(world, id.as_str(), made.as_str());
    let ghost n1 = choose|now: Seq<char>|
        is_instant(now) && (world@, opt_view(a)) == #[trigger] attempted(w3, id@, made@, now);
    let ghost w4 = world@;
    let b = attempt(world, made.as_str(), id.as_str());
    let ghost n2 = choose|now: Seq<char>|
        is_instant(now) && (world@, opt_view(b)) == #[trigger] attempted(w4, made@, id@, now);
    let t = Trial {
        first,
        entity: Some(id),
        s2,
        s3,
        summary,
        made,
        decorrelated,
        second,
        s2_again,
        s3_again,
        refusals: (a, b),
    };
    let o = judge(&t, generated);
    proof {
        let c = Course { second: t2, merges: (n1, n2), ..c2 };
        assert(followed(w, c, *weights));
        assert(trial(w, c, *weights) == Ok::<(WorldModel, TrialModel), Halt>((world@, t@)));
    }
    Ok(o)
}

} // verus!
