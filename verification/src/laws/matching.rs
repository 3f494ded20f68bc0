//! Matching: what a score and its decision must satisfy.

use vstd::prelude::*;

use crate::matcher::{
    acronym_form, acronym_level_of, all_in, candidate_names, closest, codes, content,
    contributions_of, decision, evidence, extra_index, features_of, has_counterpart, initials_of,
    jaccard_index, jaccard_of, law_context_confirms_only, lemma_closest_in_range,
    lemma_overlap_is_full, lemma_with_weight, match_of, name_index, name_level_of, nonempty,
    normalized, phonetic_level_of, same_tokens, shared, sounds_within, subset_level_of, sum_of,
    type_level_of, united, unshared, unspaced, with_weight, without_ignorable, Decision, Features,
    Ratio, Weights,
};
use crate::text::{lowercase, words};

verus! {

// ---------------------------------------------------------------------------------------------
// Decisions

/// A total from the upper threshold on merges, one below both thresholds makes a new entity, and
/// what lies between them waits for a human.
pub proof fn law_thresholds_decide(total: int, w: Weights)
    ensures
        total >= w.upper <==> decision(total, w) == Decision::Merge,
        w.lower <= total < w.upper ==> decision(total, w) == Decision::Review,
        total < w.lower && total < w.upper ==> decision(total, w) == Decision::New,
{
}

// ---------------------------------------------------------------------------------------------
// Types

/// The two labels, whatever their case, say something, and not the same: no label is missing,
/// unknown or other, and they are not those of a company and its product.
pub open spec fn types_conflict(mention_type: Option<Seq<char>>, entity_type: Seq<char>) -> bool {
    &&& mention_type is Some
    &&& ({
        let (m, e) = (lowercase(mention_type->0), lowercase(entity_type));
        &&& m != e
        &&& m.len() > 0 && m != "unknown"@ && m != "other"@
        &&& e.len() > 0 && e != "unknown"@ && e != "other"@
        &&& !(m == "organization"@ && e == "product"@)
        &&& !(m == "product"@ && e == "organization"@)
    })
}

/// How two labels agree: a conflict is worth 0, a company and its product 1, a missing or unknown
/// label 2, the same label 3; which of the two is the mention's does not matter.
pub proof fn law_types_agree(a: Seq<char>, b: Seq<char>)
    ensures
        type_level_of(Some(a), b) == type_level_of(Some(b), a),
        types_conflict(Some(a), b) <==> type_level_of(Some(a), b) == 0,
        lowercase(a) == lowercase(b) && lowercase(a).len() > 0 && lowercase(a) != "unknown"@
            && lowercase(a) != "other"@ ==> type_level_of(Some(a), b) == 3,
        type_level_of(Some(a), b) == 3 ==> lowercase(a) == lowercase(b),
        lowercase(a) == "organization"@ && lowercase(b) == "product"@ ==> type_level_of(Some(a), b)
            == 1,
        lowercase(a).len() == 0 || lowercase(a) == "unknown"@ || lowercase(a) == "other"@
            ==> type_level_of(Some(a), b) == 2,
        type_level_of(None, b) == 2,
{
    reveal_strlit("organization");
    reveal_strlit("product");
    reveal_strlit("unknown");
    reveal_strlit("other");
    assert("organization"@.len() != "product"@.len());
    assert("organization"@.len() != "unknown"@.len());
    assert("organization"@.len() != "other"@.len());
    assert("product"@[0] != "unknown"@[0]);
    assert("product"@.len() != "other"@.len());
}

// ---------------------------------------------------------------------------------------------
// Evidence

/// What the evidence of names and types sums up to: one weight for each thing that was observed.
/// A matched acronym stands for all that the names would say.
pub proof fn law_evidence_adds_up(f: Features, w: Weights)
    requires
        f.wf(),
    ensures
        ({
            let types = w.type_agree@[f.type_agree as int];
            let total = sum_of(evidence(f, w));
            &&& f.acronym == 1 ==> total == w.acronym_match + types
            &&& f.acronym != 1 ==> exists|n: int, j: int, x: int|
                total == #[trigger] w.name@[n] + #[trigger] w.jaccard@[j]
                    + #[trigger] w.extra_tokens@[x] + w.phonetic@[f.phonetic as int]
                    + w.token_subset@[f.token_subset as int] + types + (if f.alias_exact {
                    w.alias_exact as int
                } else {
                    0
                }) + (if f.acronym == -1 {
                    w.acronym_mismatch as int
                } else {
                    0
                }) && (f.extra_tokens == 0 && f.token_subset == 0 ==> n == f.name_level) && (n
                    <= 2 || f.extra_tokens == 0) && (n >= 1 || f.token_subset == 0) && 0 <= n <= 3
                    && 0 <= j <= 2 && 0 <= x <= 2 && (x == 2 <==> f.extra_tokens >= 2) && (x == 0
                    <==> f.extra_tokens == 0) && (j == 2 <==> f.token_jaccard.num * 5 >= 4
                    * f.token_jaccard.den) && (j == 0 <==> f.token_jaccard.num * 2
                    < f.token_jaccard.den)
        }),
{
    lemma_evidence_sum(f, w);
    if f.acronym != 1 {
        let (n, j, x) = (name_index(f), jaccard_index(f), extra_index(f));
        let (a, b) = (f.token_jaccard.num, f.token_jaccard.den);
        assert(w.name@[n] == w.name@[n] && w.jaccard@[j] == w.jaccard@[j] && w.extra_tokens@[x]
            == w.extra_tokens@[x]);
    }
}

/// The sum in terms of the positions that the features pick.
pub proof fn lemma_evidence_sum(f: Features, w: Weights)
    ensures
        f.acronym == 1 ==> sum_of(evidence(f, w)) == w.acronym_match
            + w.type_agree@[f.type_agree as int],
        f.acronym != 1 ==> sum_of(evidence(f, w)) == w.name@[name_index(f)]
            + w.jaccard@[jaccard_index(f)] + w.extra_tokens@[extra_index(f)]
            + w.phonetic@[f.phonetic as int] + w.token_subset@[f.token_subset as int]
            + w.type_agree@[f.type_agree as int] + (if f.alias_exact {
            w.alias_exact as int
        } else {
            0
        }) + (if f.acronym == -1 {
            w.acronym_mismatch as int
        } else {
            0
        }),
{
    let types = w.type_agree@[f.type_agree as int] as int;
    let c0: Seq<(Seq<char>, int)> = seq![];
    assert(sum_of(c0) == 0);
    if f.acronym == 1 {
        lemma_with_weight(c0, "acronym_match"@, w.acronym_match as int);
        lemma_with_weight(
            with_weight(c0, "acronym_match"@, w.acronym_match as int),
            "type_agree"@,
            types,
        );
    } else {
        let v1 = w.name@[name_index(f)] as int;
        let c1 = with_weight(c0, "name_jw"@, v1);
        lemma_with_weight(c0, "name_jw"@, v1);
        let c2 = if f.alias_exact {
            with_weight(c1, "alias_exact"@, w.alias_exact as int)
        } else {
            c1
        };
        lemma_with_weight(c1, "alias_exact"@, w.alias_exact as int);
        let v3 = w.jaccard@[jaccard_index(f)] as int;
        let c3 = with_weight(c2, "token_jaccard"@, v3);
        lemma_with_weight(c2, "token_jaccard"@, v3);
        let v4 = w.phonetic@[f.phonetic as int] as int;
        let c4 = with_weight(c3, "phonetic"@, v4);
        lemma_with_weight(c3, "phonetic"@, v4);
        let v5 = w.extra_tokens@[extra_index(f)] as int;
        let c5 = with_weight(c4, "extra_tokens"@, v5);
        lemma_with_weight(c4, "extra_tokens"@, v5);
        let v6 = w.token_subset@[f.token_subset as int] as int;
        let c6 = with_weight(c5, "token_subset"@, v6);
        lemma_with_weight(c5, "token_subset"@, v6);
        let c7 = if f.acronym == -1 {
            with_weight(c6, "acronym_mismatch"@, w.acronym_mismatch as int)
        } else {
            c6
        };
        lemma_with_weight(c6, "acronym_mismatch"@, w.acronym_mismatch as int);
        lemma_with_weight(c7, "type_agree"@, types);
        assert(evidence(f, w) == with_weight(c7, "type_agree"@, types));
    }
}

// ---------------------------------------------------------------------------------------------
// Outcomes under the default weights

/// No token occurs twice in the content of a name.
pub open spec fn has_distinct_tokens(name: Seq<char>) -> bool {
    content(normalized(name)).no_duplicates()
}

proof fn lemma_lengths_agree(a: Seq<Seq<char>>, b: Seq<Seq<char>>)
    requires
        a.no_duplicates(),
        b.no_duplicates(),
        a.to_set() == b.to_set(),
    ensures
        a.len() == b.len(),
{
    a.unique_seq_to_set();
    b.unique_seq_to_set();
}

proof fn lemma_nonempty(ts: Seq<Seq<char>>, t: Seq<char>)
    ensures
        nonempty(ts).contains(t) <==> ts.contains(t) && t.len() > 0,
    decreases ts.len(),
{
    if ts.len() > 0 {
        let most = ts.drop_last();
        lemma_nonempty(most, t);
        assert(ts =~= most.push(ts.last()));
        crate::matcher::lemma_push_contains(most, ts.last(), t);
        crate::matcher::lemma_push_contains(nonempty(most), ts.last(), t);
    }
}

/// The names of a candidate are its canonical name and its aliases, as far as something is left
/// of them when they are normalized.
pub proof fn lemma_candidate_names(canonical: Seq<char>, aliases: Seq<Seq<char>>, n: Seq<char>)
    ensures
        candidate_names(canonical, aliases).contains(n) <==> n.len() > 0 && (n == normalized(
            canonical,
        ) || exists|j: int| 0 <= j < aliases.len() && n == normalized(#[trigger] aliases[j])),
{
    let more = Seq::new(aliases.len(), |i: int| normalized(aliases[i]));
    let all = seq![normalized(canonical)] + more;
    lemma_nonempty(all, n);
    if all.contains(n) {
        let k = choose|k: int| 0 <= k < all.len() && all[k] == n;
        if k > 0 {
            assert(n == normalized(aliases[k - 1]));
        }
    }
    if n == normalized(canonical) {
        assert(all[0] == n);
    }
    if exists|j: int| 0 <= j < aliases.len() && n == normalized(#[trigger] aliases[j]) {
        let j = choose|j: int| 0 <= j < aliases.len() && n == normalized(#[trigger] aliases[j]);
        assert(all[j + 1] == n);
    }
}

/// A mention goes by one of the names of a candidate, once both are normalized.
pub open spec fn goes_by(
    mention: Seq<char>,
    canonical: Seq<char>,
    aliases: Seq<Seq<char>>,
) -> bool {
    &&& normalized(mention).len() > 0
    &&& normalized(mention) == normalized(canonical) || exists|j: int|
        0 <= j < aliases.len() && normalized(mention) == normalized(#[trigger] aliases[j])
}

/// An exact match is a match of the mention with one of the names, the canonical one or an alias.
pub proof fn law_exact_match_is_by_name(
    mention: Seq<char>,
    mention_type: Option<Seq<char>>,
    canonical: Seq<char>,
    aliases: Seq<Seq<char>>,
    entity_type: Seq<char>,
    context: (Ratio, u32, bool),
)
    ensures
        features_of(mention, mention_type, canonical, aliases, entity_type, context).alias_exact
            <==> goes_by(mention, canonical, aliases),
{
    lemma_candidate_names(canonical, aliases, normalized(mention));
}

/// A person and an organization of one name are not merged by themselves: with the default
/// weights, no pair whose types conflict is, however well the names match and whatever the
/// context says. (Where a name repeats a token, an exact match of another order of tokens may
/// count as containment too; this is left out.)
pub proof fn law_conflicting_types_never_merge(
    mention: Seq<char>,
    mention_type: Option<Seq<char>>,
    canonical: Seq<char>,
    aliases: Seq<Seq<char>>,
    entity_type: Seq<char>,
    context: (Ratio, u32, bool),
    w: Weights,
)
    requires
        w.is_default(),
        w.wf(),
        types_conflict(mention_type, entity_type),
        has_distinct_tokens(mention),
        has_distinct_tokens(canonical),
        forall|j: int| 0 <= j < aliases.len() ==> has_distinct_tokens(#[trigger] aliases[j]),
    ensures
        ({
            let f = features_of(mention, mention_type, canonical, aliases, entity_type, context);
            decision(sum_of(contributions_of(f, w)), w) != Decision::Merge
        }),
{
    let f = features_of(mention, mention_type, canonical, aliases, entity_type, context);
    law_types_agree(mention_type->0, entity_type);
    assert(f.type_agree == 0);
    let m = content(normalized(mention));
    let names = candidate_names(canonical, aliases);
    if names.len() > 0 {
        lemma_closest_in_range(m, names);
        let n = names[closest(m, names)];
        assert(names.contains(n));
        lemma_candidate_names(canonical, aliases, n);
        let cc = content(n);
        assert(cc.no_duplicates()) by {
            if n == normalized(canonical) {
                assert(has_distinct_tokens(canonical));
            } else {
                let j = choose|j: int|
                    0 <= j < aliases.len() && n == normalized(#[trigger] aliases[j]);
                assert(has_distinct_tokens(aliases[j]));
            }
        }
        if f.alias_exact {
            crate::matcher::lemma_content_is_some(mention);
            let k = choose|k: int| 0 <= k < names.len() && names[k] == normalized(mention);
            assert(same_tokens(m, content(names[k])));
            crate::matcher::lemma_closest_is_full(m, names, k);
            lemma_lengths_agree(m, cc);
            assert(f.token_subset == 0);
        }
    }
    lemma_subset_range(m, if names.len() == 0 {
        content(normalized(canonical))
    } else {
        content(names[closest(m, names)])
    });
    lemma_evidence_sum(f, w);
    law_context_confirms_only(f, w);
}

proof fn lemma_subset_range(a: Seq<Seq<char>>, b: Seq<Seq<char>>)
    ensures
        0 <= subset_level_of(a, b) <= 2,
        0 <= phonetic_level_of(a, b) <= 2,
{
}

/// Where an observation says at least as much for a match in every respect.
pub open spec fn says_more(f: Features, g: Features) -> bool {
    &&& f.acronym != 1
    &&& g.acronym != 1
    &&& f.acronym <= g.acronym
    &&& f.name_level <= g.name_level
    &&& f.alias_exact ==> g.alias_exact
    &&& f.token_jaccard.num * 5 >= 4 * f.token_jaccard.den ==> g.token_jaccard.num * 5 >= 4
        * g.token_jaccard.den
    &&& f.token_jaccard.num * 2 >= f.token_jaccard.den ==> g.token_jaccard.num * 2
        >= g.token_jaccard.den
    &&& f.phonetic <= g.phonetic
    &&& f.type_agree <= g.type_agree
    &&& f.extra_tokens >= g.extra_tokens
    &&& f.token_subset <= g.token_subset
}

/// Under the default weights, more likeness is never less evidence.
pub proof fn law_likeness_is_evidence(f: Features, g: Features, w: Weights)
    requires
        w.is_default(),
        f.wf(),
        g.wf(),
        says_more(f, g),
    ensures
        sum_of(evidence(f, w)) <= sum_of(evidence(g, w)),
        f.type_agree < g.type_agree ==> sum_of(evidence(f, w)) < sum_of(evidence(g, w)),
        f.phonetic < g.phonetic ==> sum_of(evidence(f, w)) < sum_of(evidence(g, w)),
        f.token_subset < g.token_subset ==> sum_of(evidence(f, w)) < sum_of(evidence(g, w)),
        !f.alias_exact && g.alias_exact ==> sum_of(evidence(f, w)) < sum_of(evidence(g, w)),
        f.acronym < g.acronym ==> sum_of(evidence(f, w)) < sum_of(evidence(g, w)),
        f.extra_tokens > 0 && g.extra_tokens == 0 ==> sum_of(evidence(f, w)) < sum_of(
            evidence(g, w),
        ),
{
    lemma_evidence_sum(f, w);
    lemma_evidence_sum(g, w);
}

/// Context that says at least as much for a match.
pub open spec fn supports_more(f: Features, g: Features) -> bool {
    &&& f.cooc.num > 0 ==> g.cooc.num > 0
    &&& f.cooc.num * 2 >= f.cooc.den ==> g.cooc.num * 2 >= g.cooc.den
    &&& f.corroboration <= g.corroboration
    &&& f.recent ==> g.recent
}

/// Under the default weights, more context never lowers a total, and without context there is
/// only the evidence of names and types.
pub proof fn law_context_only_adds(f: Features, g: Features, w: Weights)
    requires
        w.is_default(),
        w.wf(),
        f.wf(),
        g.wf(),
        evidence(f, w) == evidence(g, w),
        supports_more(f, g),
    ensures
        sum_of(contributions_of(f, w)) <= sum_of(contributions_of(g, w)),
        sum_of(evidence(f, w)) <= sum_of(contributions_of(f, w)),
        f.cooc.num == 0 && f.corroboration == 0 && !f.recent ==> sum_of(contributions_of(f, w))
            == sum_of(evidence(f, w)),
        sum_of(evidence(g, w)) >= w.upper && g.cooc.num * 2 >= g.cooc.den && g.corroboration >= 8
            ==> sum_of(contributions_of(g, w)) == sum_of(evidence(g, w)) + 2_000_000,
        sum_of(evidence(g, w)) >= w.upper && g.recent && g.cooc.num == 0 && g.corroboration == 0
            ==> sum_of(contributions_of(g, w)) > sum_of(evidence(g, w)),
{
    crate::matcher::law_context_is_capped(f, w);
    crate::matcher::law_context_is_capped(g, w);
}

/// An acronym whose letters are the initials of the other name decides under the default weights,
/// unless the types disagree: string similarity means nothing then.
pub proof fn law_acronyms_merge(f: Features, w: Weights)
    requires
        w.is_default(),
        w.wf(),
        f.wf(),
        f.acronym == 1,
    ensures
        f.type_agree >= 2 <==> decision(sum_of(contributions_of(f, w)), w) == Decision::Merge,
{
    lemma_evidence_sum(f, w);
    law_context_confirms_only(f, w);
    crate::matcher::law_default_context_favors(f, w);
}

// ---------------------------------------------------------------------------------------------
// Likeness

/// The level of a similarity: 3 from 0.95 on, 2 from 0.87 on, 1 from 0.75 on.
pub proof fn law_similarity_levels(x: crate::double::Double, y: crate::double::Double)
    ensures
        x.rank() <= y.rank() ==> name_level_of(x) <= name_level_of(y),
        x.rank() >= 0x3fee666666666666 <==> name_level_of(x) == 3,
        x.rank() >= 0x3febd70a3d70a3d7 <==> name_level_of(x) >= 2,
        x.rank() >= 0x3fe8000000000000 <==> name_level_of(x) >= 1,
{
}

/// The similarity with a list of names is that of the most similar one.
pub proof fn law_most_similar_name_counts(m: Seq<char>, names: Seq<Seq<char>>)
    ensures
        ({
            let b = crate::matcher::best_similarity(m, names);
            &&& forall|k: int|
                0 <= k < names.len() ==> b.rank() >= (crate::double::Double {
                    bits: crate::matcher::jaro_winkler_bits(m, #[trigger] names[k]),
                }).rank()
            &&& b.rank() >= 0
            &&& b.rank() > 0 ==> exists|k: int|
                0 <= k < names.len() && b.rank() == (crate::double::Double {
                    bits: crate::matcher::jaro_winkler_bits(m, #[trigger] names[k]),
                }).rank()
        }),
    decreases names.len(),
{
    if names.len() > 0 {
        let most = names.drop_last();
        let n = names.len() - 1;
        law_most_similar_name_counts(m, most);
        let b = crate::matcher::best_similarity(m, names);
        let b0 = crate::matcher::best_similarity(m, most);
        assert forall|k: int| 0 <= k < names.len() implies b.rank() >= (crate::double::Double {
            bits: crate::matcher::jaro_winkler_bits(m, #[trigger] names[k]),
        }).rank() by {
            if k < n {
                assert(most[k] == names[k]);
            }
        }
        if b.rank() > 0 {
            if b.rank() == b0.rank() {
                let k = choose|k: int|
                    0 <= k < most.len() && b0.rank() == (crate::double::Double {
                        bits: crate::matcher::jaro_winkler_bits(m, #[trigger] most[k]),
                    }).rank();
                assert(names[k] == most[k]);
            } else {
                assert(names[n] == names.last());
            }
        }
    }
}

/// How the tokens of two names overlap: none where they are disjoint, all where they are the same
/// ones, and never more than all; tokens on one side only are extra.
pub proof fn law_overlap_counts(a: Seq<Seq<char>>, b: Seq<Seq<char>>)
    ensures
        jaccard_of(a, b).0 <= jaccard_of(a, b).1,
        jaccard_of(a, b).1 > 0,
        jaccard_of(a, b) == jaccard_of(b, a),
        unshared(a, b) == unshared(b, a),
        a.len() > 0 && b.len() > 0 ==> (jaccard_of(a, b).0 == jaccard_of(a, b).1 <==> a.to_set()
            == b.to_set()),
        a.len() > 0 && b.len() > 0 ==> (jaccard_of(a, b).0 == 0 <==> a.to_set().disjoint(
            b.to_set(),
        )),
        (a.len() == 0 || b.len() == 0) ==> jaccard_of(a, b).0 == 0,
        unshared(a, b).len() == 0 <==> a.to_set() == b.to_set(),
        a.len() > 0 && b.len() > 0 ==> jaccard_of(a, b).0 + unshared(a, b).len() == jaccard_of(
            a,
            b,
        ).1,
{
    lemma_overlap_is_full(a, b);
    lemma_overlap_is_full(b, a);
    vstd::seq_lib::seq_to_set_is_finite(a);
    vstd::seq_lib::seq_to_set_is_finite(b);
    let (s, t) = (a.to_set(), b.to_set());
    assert(shared(a, b) =~= shared(b, a));
    assert(united(a, b) =~= united(b, a));
    assert(unshared(a, b) =~= unshared(b, a));
    let u = unshared(a, b);
    assert(u.finite() && shared(a, b).finite());
    if u.len() == 0 {
        assert(u =~= Set::empty());
        assert forall|x: Seq<char>| s.contains(x) == t.contains(x) by {
            assert(!u.contains(x));
        }
        assert(s =~= t);
    }
    if s == t {
        assert(u =~= Set::empty());
    }
    assert(shared(a, b).disjoint(u));
    vstd::set_lib::lemma_set_disjoint_lens(shared(a, b), u);
    assert(shared(a, b).union(u) =~= united(a, b));
    assert(shared(a, b) + u =~= united(a, b));
    if shared(a, b).len() == 0 {
        assert(shared(a, b) =~= Set::empty());
        assert forall|x: Seq<char>| s.contains(x) implies !t.contains(x) by {
            assert(!shared(a, b).contains(x));
        }
    }
    if s.disjoint(t) {
        assert(shared(a, b) =~= Set::empty());
    }
}

/// One name within another. Which of the two is the longer does not matter; names of one length
/// contain nothing; a part that ends the whole, or begins it with more than one token, is strong;
/// a single token elsewhere is weak; and there is no containment with a token that is missing.
pub proof fn law_containment(short: Seq<Seq<char>>, rest: Seq<Seq<char>>, x: Seq<char>)
    requires
        short.len() > 0,
        rest.len() > 0,
    ensures
        subset_level_of(short, rest + short) == 2,
        short.len() > 1 ==> subset_level_of(short, short + rest) == 2,
        rest.last() != x && rest.contains(x) && rest.len() > 1 ==> subset_level_of(seq![x], rest)
            == 1,
        subset_level_of(short, rest) == subset_level_of(rest, short) || short.len() == rest.len(),
        short.len() == rest.len() ==> subset_level_of(short, rest) == 0,
        short.len() < rest.len() && short.contains(x) && !rest.contains(x) ==> subset_level_of(
            short,
            rest,
        ) == 0,
        short.len() < rest.len() && all_in(short, rest) ==> subset_level_of(short, rest) >= 1,
{
    let after = rest + short;
    let n = short.len() as int;
    assert forall|i: int| 0 <= i < short.len() implies after.contains(#[trigger] short[i]) by {
        assert(after[rest.len() + i] == short[i]);
    }
    assert(after.skip(after.len() - n) =~= short);
    let front = short + rest;
    assert forall|i: int| 0 <= i < short.len() implies front.contains(#[trigger] short[i]) by {
        assert(front[i] == short[i]);
    }
    assert(front.take(n) =~= short);
    if rest.contains(x) && rest.last() != x {
        let one = seq![x];
        assert forall|i: int| 0 <= i < one.len() implies rest.contains(#[trigger] one[i]) by {}
        assert(rest.skip(rest.len() - 1)[0] == rest.last());
    }
    if short.contains(x) && !rest.contains(x) {
        let k = choose|k: int| 0 <= k < short.len() && short[k] == x;
        assert(!rest.contains(short[k]));
    }
}

/// The initials of tokens.
pub proof fn law_initials(ts: Seq<Seq<char>>)
    requires
        forall|i: int| 0 <= i < ts.len() ==> (#[trigger] ts[i]).len() > 0,
    ensures
        initials_of(ts).len() == ts.len(),
        forall|i: int| 0 <= i < ts.len() ==> #[trigger] initials_of(ts)[i] == ts[i][0],
    decreases ts.len(),
{
    if ts.len() > 0 {
        let most = ts.drop_last();
        assert forall|i: int| 0 <= i < most.len() implies (#[trigger] most[i]).len() > 0 by {
            assert(most[i] == ts[i]);
        }
        law_initials(most);
        assert(ts.last() == ts[ts.len() - 1]);
        assert forall|i: int| 0 <= i < ts.len() implies #[trigger] initials_of(ts)[i]
            == ts[i][0] by {
            if i < most.len() {
                assert(most[i] == ts[i]);
            }
        }
    }
}

/// An acronym stands for a name of two or more tokens whose last initials it spells, on either
/// side; against any other name it is a mismatch; without an acronym there is nothing to compare.
pub proof fn law_acronyms(
    mention: Seq<char>,
    m: Seq<Seq<char>>,
    cand: Seq<char>,
    c: Seq<Seq<char>>,
    skip: int,
)
    requires
        0 <= skip,
        forall|i: int| 0 <= i < c.len() ==> (#[trigger] c[i]).len() > 0,
        forall|i: int| 0 <= i < m.len() ==> (#[trigger] m[i]).len() > 0,
    ensures
        ({
            let n = normalized(mention);
            let level = acronym_level_of(n, mention, m, cand, c);
            let letters = unspaced(n);
            &&& acronym_form(mention) && c.len() >= 2 && letters.len() + skip == c.len() && (
            forall|i: int|
                0 <= i < letters.len() ==> #[trigger] letters[i] == c[skip + i][0]) ==> level == 1
            &&& acronym_form(mention) && c.len() >= 2 && letters.len() > c.len() ==> level == -1
            &&& acronym_form(mention) && c.len() >= 2 && letters.len() + skip == c.len() && (
            exists|i: int|
                0 <= i < letters.len() && #[trigger] letters[i] != c[skip + i][0]) ==> level == -1
            &&& !acronym_form(mention) && !acronym_form(cand) ==> level == 0
            &&& acronym_form(mention) && c.len() < 2 && !acronym_form(cand) ==> level == -1
            &&& !acronym_form(mention) && acronym_form(cand) && m.len() >= 2 ==> (level == 1 <==> {
                let other = unspaced(normalized(cand));
                other.len() <= m.len() && forall|i: int|
                    0 <= i < other.len() ==> #[trigger] other[i] == m[m.len() - other.len() + i][0]
            })
            &&& !acronym_form(mention) && acronym_form(cand) ==> level != 0
        }),
{
    law_initials(c);
    law_initials(m);
    let letters = unspaced(normalized(mention));
    let ic = initials_of(c);
    if letters.len() + skip == c.len() {
        let tail = ic.skip(ic.len() - letters.len());
        assert forall|i: int| 0 <= i < letters.len() implies #[trigger] tail[i] == c[skip + i][0] by {
            assert(ic[skip + i] == c[skip + i][0]);
        }
        if forall|i: int| 0 <= i < letters.len() ==> #[trigger] letters[i] == c[skip + i][0] {
            assert(tail =~= letters);
        }
        if exists|i: int| 0 <= i < letters.len() && #[trigger] letters[i] != c[skip + i][0] {
            let i = choose|i: int|
                0 <= i < letters.len() && #[trigger] letters[i] != c[skip + i][0];
            assert(tail[i] != letters[i]);
        }
    }
    let other = unspaced(normalized(cand));
    let im = initials_of(m);
    if other.len() <= m.len() {
        let tail = im.skip(im.len() - other.len());
        assert forall|i: int| 0 <= i < other.len() implies #[trigger] tail[i] == m[m.len()
            - other.len() + i][0] by {
            assert(im[m.len() - other.len() + i] == m[m.len() - other.len() + i][0]);
        }
        if forall|i: int|
            0 <= i < other.len() ==> #[trigger] other[i] == m[m.len() - other.len() + i][0] {
            assert(tail =~= other);
        } else {
            let i = choose|i: int|
                0 <= i < other.len() && #[trigger] other[i] != m[m.len() - other.len() + i][0];
            assert(tail[i] != other[i]);
        }
    }
}

/// Only the blanks go when the letters of an acronym are put together.
pub proof fn law_unspaced(a: Seq<char>, b: Seq<char>)
    ensures
        unspaced(a + b) == unspaced(a) + unspaced(b),
        unspaced(a + seq![' '] + b) == unspaced(a) + unspaced(b),
        (forall|i: int| 0 <= i < a.len() ==> #[trigger] a[i] != ' ') ==> unspaced(a) == a,
    decreases b.len() + a.len(),
{
    lemma_unspaced_joined(a, b);
    lemma_unspaced_joined(a + seq![' '], b);
    assert((a + seq![' ']).drop_last() =~= a);
    if a.len() > 0 && forall|i: int| 0 <= i < a.len() ==> #[trigger] a[i] != ' ' {
        let most = a.drop_last();
        assert forall|i: int| 0 <= i < most.len() implies #[trigger] most[i] != ' ' by {
            assert(most[i] == a[i]);
        }
        law_unspaced(most, seq![]);
        assert(most.push(a.last()) =~= a);
    } else if a.len() == 0 {
        assert(a =~= seq![]);
    }
}

proof fn lemma_unspaced_joined(a: Seq<char>, b: Seq<char>)
    ensures
        unspaced(a + b) == unspaced(a) + unspaced(b),
    decreases b.len(),
{
    if b.len() == 0 {
        assert(a + b =~= a);
        assert(unspaced(a) + unspaced(b) =~= unspaced(a));
    } else {
        lemma_unspaced_joined(a, b.drop_last());
        assert((a + b).drop_last() =~= a + b.drop_last());
        assert((a + b).last() == b.last());
        assert(unspaced(a + b) =~= unspaced(a) + unspaced(b));
    }
}

proof fn lemma_codes(ts: Seq<Seq<char>>, c: Seq<char>)
    ensures
        codes(ts).contains(c) <==> c.len() > 0 && exists|j: int|
            0 <= j < ts.len() && crate::matcher::phonetic_code(#[trigger] ts[j]) == c,
    decreases ts.len(),
{
    if ts.len() > 0 {
        let most = ts.drop_last();
        let p = crate::matcher::phonetic_code(ts.last());
        lemma_codes(most, c);
        crate::matcher::lemma_push_contains(codes(most), p, c);
        if exists|j: int| 0 <= j < most.len() && crate::matcher::phonetic_code(#[trigger] most[j])
            == c {
            let j = choose|j: int|
                0 <= j < most.len() && crate::matcher::phonetic_code(#[trigger] most[j]) == c;
            assert(ts[j] == most[j]);
        }
        if exists|j: int| 0 <= j < ts.len() && crate::matcher::phonetic_code(#[trigger] ts[j])
            == c {
            let j = choose|j: int|
                0 <= j < ts.len() && crate::matcher::phonetic_code(#[trigger] ts[j]) == c;
            if j < most.len() {
                assert(most[j] == ts[j]);
            }
        }
        assert(ts[ts.len() - 1] == ts.last());
    }
}

/// Two tokens sound alike: they are the same, or have the same code.
pub open spec fn alike(a: Seq<char>, b: Seq<char>) -> bool {
    a == b || (crate::matcher::phonetic_code(a) == crate::matcher::phonetic_code(b)
        && crate::matcher::phonetic_code(a).len() > 0)
}

/// Every token of `a` sounds like one of `b`.
pub open spec fn each_sounds_like_one(a: Seq<Seq<char>>, b: Seq<Seq<char>>) -> bool {
    forall|i: int|
        0 <= i < a.len() ==> exists|j: int| 0 <= j < b.len() && alike(#[trigger] a[i], b[j])
}

pub open spec fn has_code(a: Seq<Seq<char>>) -> bool {
    exists|i: int| 0 <= i < a.len() && crate::matcher::phonetic_code(#[trigger] a[i]).len() > 0
}

proof fn lemma_sounds(a: Seq<Seq<char>>, b: Seq<Seq<char>>)
    ensures
        sounds_within(a, b) <==> each_sounds_like_one(a, b),
        codes(a).len() > 0 <==> has_code(a),
{
    assert forall|i: int| 0 <= i < a.len() implies (has_counterpart(#[trigger] a[i], b)
        <==> exists|j: int| 0 <= j < b.len() && alike(a[i], b[j])) by {
        let c = crate::matcher::phonetic_code(a[i]);
        lemma_codes(b, c);
        if b.contains(a[i]) {
            let j = choose|j: int| 0 <= j < b.len() && b[j] == a[i];
            assert(alike(a[i], b[j]));
        }
        if codes(b).contains(c) {
            let j = choose|j: int|
                0 <= j < b.len() && crate::matcher::phonetic_code(#[trigger] b[j]) == c;
            assert(alike(a[i], b[j]));
        }
        if exists|j: int| 0 <= j < b.len() && alike(a[i], b[j]) {
            let j = choose|j: int| 0 <= j < b.len() && alike(a[i], b[j]);
            if a[i] != b[j] {
                assert(crate::matcher::phonetic_code(b[j]) == c);
            }
        }
    }
    if codes(a).len() > 0 {
        let c = codes(a)[0];
        assert(codes(a).contains(c));
        lemma_codes(a, c);
        let j = choose|j: int|
            0 <= j < a.len() && crate::matcher::phonetic_code(#[trigger] a[j]) == c;
        assert(crate::matcher::phonetic_code(a[j]).len() > 0);
    }
    if has_code(a) {
        let i = choose|i: int|
            0 <= i < a.len() && crate::matcher::phonetic_code(#[trigger] a[i]).len() > 0;
        lemma_codes(a, crate::matcher::phonetic_code(a[i]));
    }
}

/// How two names sound: 2 where every token on both sides sounds like one on the other, 1 where
/// this holds of one side only, 0 otherwise, and 0 where a side has nothing to hear.
pub proof fn law_phonetic_levels(a: Seq<Seq<char>>, b: Seq<Seq<char>>)
    ensures
        phonetic_level_of(a, b) == phonetic_level_of(b, a),
        has_code(a) ==> phonetic_level_of(a, a) == 2,
        !has_code(a) ==> phonetic_level_of(a, b) == 0,
        phonetic_level_of(a, b) == 2 <==> has_code(a) && has_code(b) && each_sounds_like_one(a, b)
            && each_sounds_like_one(b, a),
        phonetic_level_of(a, b) >= 1 <==> has_code(a) && has_code(b) && (each_sounds_like_one(
            a,
            b,
        ) || each_sounds_like_one(b, a)),
{
    lemma_sounds(a, b);
    lemma_sounds(b, a);
    lemma_sounds(a, a);
    assert(each_sounds_like_one(a, a)) by {
        assert forall|i: int| 0 <= i < a.len() implies exists|j: int|
            0 <= j < a.len() && alike(#[trigger] a[i], a[j]) by {
            assert(alike(a[i], a[i]));
        }
    }
}

// ---------------------------------------------------------------------------------------------
// Tokens

proof fn lemma_without_ignorable(ts: Seq<Seq<char>>, t: Seq<char>)
    ensures
        without_ignorable(ts).contains(t) <==> ts.contains(t) && !crate::matcher::is_ignorable(t),
        without_ignorable(ts).len() <= ts.len(),
    decreases ts.len(),
{
    if ts.len() > 0 {
        let most = ts.drop_last();
        lemma_without_ignorable(most, t);
        assert(ts =~= most.push(ts.last()));
        crate::matcher::lemma_push_contains(most, ts.last(), t);
        crate::matcher::lemma_push_contains(without_ignorable(most), ts.last(), t);
    }
}

/// The tokens that say nothing of who is meant.
pub open spec fn says_nothing(t: Seq<char>) -> bool {
    seq![
        "inc"@, "incorporated"@, "corp"@, "corporation"@, "co"@, "company"@, "ltd"@, "limited"@,
        "llc"@, "plc"@, "sa"@, "ag"@, "gmbh"@, "pbc"@, "holdings"@, "group"@, "technologies"@,
        "technology"@, "labs"@, "lab"@, "ai"@, "research"@, "foundation"@, "the"@, "of"@, "and"@,
        "de"@, "la"@, "le"@, "les"@, "el"@
    ].contains(t)
}

/// The content of a name: its tokens but for those that say nothing, and all of them where none
/// would be left.
pub proof fn law_content_carries_identity(norm: Seq<char>, t: Seq<char>)
    ensures
        content(norm).contains(t) ==> words(norm).contains(t),
        words(norm).contains(t) && !says_nothing(t) ==> content(norm).contains(t),
        content(norm).len() == 0 <==> words(norm).len() == 0,
        content(norm).contains(t) && says_nothing(t) ==> forall|u: Seq<char>| #[trigger]
            content(norm).contains(u) ==> says_nothing(u),
{
    lemma_without_ignorable(words(norm), t);
    lemma_ignorable(t);
    let c = without_ignorable(words(norm));
    if c.len() == 0 {
        assert forall|u: Seq<char>| #[trigger] content(norm).contains(u) implies says_nothing(u) by {
            lemma_without_ignorable(words(norm), u);
            lemma_ignorable(u);
        }
    } else if c.contains(t) && says_nothing(t) {
    }
}

proof fn lemma_ignorable(t: Seq<char>)
    ensures
        crate::matcher::is_ignorable(t) <==> says_nothing(t),
{
    let list = seq![
        "inc"@, "incorporated"@, "corp"@, "corporation"@, "co"@, "company"@, "ltd"@, "limited"@,
        "llc"@, "plc"@, "sa"@, "ag"@, "gmbh"@, "pbc"@, "holdings"@, "group"@, "technologies"@,
        "technology"@, "labs"@, "lab"@, "ai"@, "research"@, "foundation"@, "the"@, "of"@, "and"@,
        "de"@, "la"@, "le"@, "les"@, "el"@
    ];
    assert(list[0] == "inc"@ && list[1] == "incorporated"@ && list[2] == "corp"@ && list[3]
        == "corporation"@ && list[4] == "co"@ && list[5] == "company"@ && list[6] == "ltd"@
        && list[7] == "limited"@ && list[8] == "llc"@ && list[9] == "plc"@ && list[10] == "sa"@
        && list[11] == "ag"@ && list[12] == "gmbh"@ && list[13] == "pbc"@ && list[14]
        == "holdings"@ && list[15] == "group"@ && list[16] == "technologies"@ && list[17]
        == "technology"@ && list[18] == "labs"@ && list[19] == "lab"@ && list[20] == "ai"@
        && list[21] == "research"@ && list[22] == "foundation"@ && list[23] == "the"@ && list[24]
        == "of"@ && list[25] == "and"@ && list[26] == "de"@ && list[27] == "la"@ && list[28]
        == "le"@ && list[29] == "les"@ && list[30] == "el"@);
    if list.contains(t) {
        let k = choose|k: int| 0 <= k < list.len() && list[k] == t;
    }
}

// ---------------------------------------------------------------------------------------------
// Names

/// Normalizing goes character by character: letters and digits stay, an ampersand becomes the word,
/// and anything else a blank.
pub proof fn law_spread_by_character(s: Seq<char>, c: char)
    ensures
        crate::matcher::spread(seq![]).len() == 0,
        crate::text::alphanumeric(c) ==> crate::matcher::spread(s.push(c))
            == crate::matcher::spread(s).push(c),
        c == '&' && !crate::text::alphanumeric(c) ==> crate::matcher::spread(s.push(c))
            == crate::matcher::spread(s) + seq![' ', 'a', 'n', 'd', ' '],
        c != '&' && !crate::text::alphanumeric(c) ==> crate::matcher::spread(s.push(c))
            == crate::matcher::spread(s).push(' '),
{
    assert(s.push(c).drop_last() =~= s);
}

/// Two texts that are equal in lower case have one normalized form.
pub proof fn law_normal_form_has_no_case(a: Seq<char>, b: Seq<char>)
    requires
        lowercase(a) == lowercase(b),
    ensures
        normalized(a) == normalized(b),
{
}

proof fn lemma_letter_count(s: Seq<char>)
    ensures
        crate::matcher::letter_count(s) <= s.len(),
        (forall|i: int| 0 <= i < s.len() ==> crate::text::alphabetic(#[trigger] s[i]))
            ==> crate::matcher::letter_count(s) == s.len(),
        (forall|i: int| 0 <= i < s.len() ==> !crate::text::alphabetic(#[trigger] s[i]))
            ==> crate::matcher::letter_count(s) == 0,
    decreases s.len(),
{
    if s.len() > 0 {
        let most = s.drop_last();
        lemma_letter_count(most);
        assert(s.last() == s[s.len() - 1]);
        assert forall|i: int| 0 <= i < most.len() implies #[trigger] most[i] == s[i] by {}
    }
}

/// The form of an acronym, without the blanks around it: at most seven bytes with two letters or
/// more, all of it capitals, digits, dots and ampersands, or one letter, digits and one letter.
pub proof fn law_acronym_form(raw: Seq<char>)
    ensures
        ({
            let t = crate::text::trim(raw);
            let letters = forall|i: int|
                0 <= i < t.len() ==> crate::text::alphabetic(#[trigger] t[i]);
            let capitals = forall|i: int|
                0 <= i < t.len() ==> crate::text::uppercase(#[trigger] t[i])
                    || crate::text::is_ascii_digit(t[i]) || t[i] == '.' || t[i] == '&';
            let framed = t.len() >= 3 && crate::text::alphabetic(t[0]) && crate::text::alphabetic(
                t.last(),
            ) && forall|i: int| 0 < i < t.len() - 1 ==> crate::text::is_ascii_digit(#[trigger] t[i]);
            &&& letters && capitals && t.len() >= 2 && crate::matcher::byte_len(t) <= 7
                ==> acronym_form(raw)
            &&& acronym_form(raw) ==> crate::matcher::byte_len(t) <= 7 && t.len() >= 2 && (capitals
                || framed)
            &&& (forall|i: int| 0 <= i < t.len() ==> !crate::text::alphabetic(#[trigger] t[i]))
                ==> !acronym_form(raw)
        }),
{
    lemma_letter_count(crate::text::trim(raw));
}

proof fn lemma_ratio_transitive(a: int, b: int, c: int, d: int, e: int, f: int)
    by (nonlinear_arith)
    requires
        a * d >= c * b,
        c * f >= e * d,
        a >= 0,
        b > 0,
        c >= 0,
        d > 0,
        e >= 0,
        f > 0,
    ensures
        a * f >= e * b,
{
    assert(a * d * f >= c * b * f);
    assert(c * f * b >= e * d * b);
    assert((a * f) * d >= (e * b) * d);
}

/// Of the names of a candidate that one is compared token by token that shares most with the
/// mention: none shares more.
pub proof fn law_closest_name_overlaps_most(m: Seq<Seq<char>>, names: Seq<Seq<char>>, k: int)
    requires
        0 <= k < names.len(),
    ensures
        ({
            let (a, b) = jaccard_of(m, content(names[closest(m, names)]));
            let (c, d) = jaccard_of(m, content(names[k]));
            &&& 0 <= closest(m, names) < names.len()
            &&& a * d >= c * b
        }),
    decreases names.len(),
{
    lemma_closest_in_range(m, names);
    if names.len() == 1 {
        assert(k == 0);
    } else {
        let most = names.drop_last();
        let n = names.len() - 1;
        let p = closest(m, most);
        lemma_closest_in_range(m, most);
        assert(most[p] == names[p]);
        lemma_overlap_is_full(m, content(names[n]));
        lemma_overlap_is_full(m, content(names[p]));
        lemma_overlap_is_full(m, content(names[k]));
        law_overlap_counts(m, content(names[n]));
        law_overlap_counts(m, content(names[p]));
        law_overlap_counts(m, content(names[k]));
        let (a, b) = jaccard_of(m, content(names[n]));
        let (c, d) = jaccard_of(m, content(names[p]));
        let (e, f) = jaccard_of(m, content(names[k]));
        if k < n {
            assert(most[k] == names[k]);
            law_closest_name_overlaps_most(m, most, k);
            assert(c * f >= e * d);
            if crate::matcher::overlaps_as_much(m, content(names[n]), content(names[p])) {
                lemma_ratio_transitive(
                    a as int,
                    b as int,
                    c as int,
                    d as int,
                    e as int,
                    f as int,
                );
            }
        }
    }
}

/// The default weights: more likeness weighs more, what speaks for a match is positive and what
/// speaks against it negative, and the review band lies between one point and five.
pub proof fn law_default_weights_are_ordered(w: Weights)
    requires
        w.is_default(),
    ensures
        w.name@[0] < w.name@[1] < 0 < w.name@[2] < w.name@[3],
        w.jaccard@[0] < 0 < w.jaccard@[1] < w.jaccard@[2],
        w.phonetic@[0] < 0 < w.phonetic@[1] < w.phonetic@[2],
        w.type_agree@[0] < w.type_agree@[1] < 0 == w.type_agree@[2] < w.type_agree@[3],
        w.extra_tokens@[2] < w.extra_tokens@[1] < 0 == w.extra_tokens@[0],
        0 == w.token_subset@[0] < w.token_subset@[1] < w.token_subset@[2],
        w.acronym_mismatch < 0 < w.alias_exact < w.acronym_match,
        0 == w.cooc@[0] < w.cooc@[1] < w.cooc@[2],
        0 == w.corroboration@[0] < w.corroboration@[1] < w.corroboration@[2] < w.corroboration@[3],
        w.recent > 0,
        w.lower == 1_000_000,
        w.upper == 5_000_000,
        w.prior_cap == 2_000_000,
        w.acronym_match >= w.upper,
        w.name@[3] + w.alias_exact + w.jaccard@[2] + w.phonetic@[0] + w.type_agree@[1] >= w.upper,
        w.name@[3] + w.alias_exact + w.jaccard@[2] + w.phonetic@[2] + w.type_agree@[0] < w.upper,
{
}

/// A threshold that is set is taken as it is, within the limits.
pub proof fn law_thresholds_are_taken(v: i64)
    ensures
        -9_000_000_000_000_000_000 <= v <= 9_000_000_000_000_000_000
            ==> crate::matcher::clamp_threshold(v) == v,
        -9_000_000_000_000_000_000 <= crate::matcher::clamp_threshold(v)
            <= 9_000_000_000_000_000_000,
{
}

/// What is observed of a mention and a candidate: the context is taken as it is given, the types by
/// their labels, the similarity by the best of the names, and the acronym counts only where the
/// names are not the same.
pub proof fn law_features_are_observed(
    mention: Seq<char>,
    mention_type: Option<Seq<char>>,
    canonical: Seq<char>,
    aliases: Seq<Seq<char>>,
    entity_type: Seq<char>,
    context: (Ratio, u32, bool),
    k: int,
)
    ensures
        ({
            let f = features_of(mention, mention_type, canonical, aliases, entity_type, context);
            let names = candidate_names(canonical, aliases);
            &&& f.cooc == context.0
            &&& f.corroboration == context.1
            &&& f.recent == context.2
            &&& f.name_level == name_level_of(f.name_jw)
            &&& 0 <= k < names.len() ==> f.name_jw.rank() >= (crate::double::Double {
                bits: crate::matcher::jaro_winkler_bits(normalized(mention), names[k]),
            }).rank()
            &&& goes_by(mention, canonical, aliases) ==> f.acronym == 0
            &&& names.len() > 0 && !goes_by(mention, canonical, aliases) && !acronym_form(mention)
                && !acronym_form(canonical) ==> f.acronym == 0
            &&& mention_type is None ==> f.type_agree == 2
        }),
{
    law_exact_match_is_by_name(mention, mention_type, canonical, aliases, entity_type, context);
    law_most_similar_name_counts(normalized(mention), candidate_names(canonical, aliases));
    law_types_agree(entity_type, entity_type);
}

/// What context is worth before it is capped: by how many of the entities around are linked, by how
/// many items corroborate, and whether the entity is recent.
pub proof fn law_context_levels(f: Features, w: Weights)
    requires
        f.wf(),
    ensures
        ({
            let (a, b, c) = crate::matcher::raw_priors(f, w);
            &&& f.cooc.num == 0 ==> a == w.cooc@[0]
            &&& f.cooc.num > 0 && f.cooc.num * 2 < f.cooc.den ==> a == w.cooc@[1]
            &&& f.cooc.num * 2 >= f.cooc.den ==> a == w.cooc@[2]
            &&& f.corroboration == 0 ==> b == w.corroboration@[0]
            &&& 1 <= f.corroboration < 3 ==> b == w.corroboration@[1]
            &&& 3 <= f.corroboration < 8 ==> b == w.corroboration@[2]
            &&& f.corroboration >= 8 ==> b == w.corroboration@[3]
            &&& f.recent ==> c == w.recent
            &&& !f.recent ==> c == 0
        }),
{
}

/// A score is the sum of what it lists, and keeps what was observed.
pub proof fn law_scores_are_sums(f: Features, w: Weights)
    ensures
        match_of(f, w).total == sum_of(match_of(f, w).contributions) as i64,
        match_of(f, w).features == f,
        match_of(f, w).contributions == contributions_of(f, w),
        forall|c: Seq<(Seq<char>, int)>, x: (Seq<char>, int)| #[trigger]
            sum_of(c.push(x)) == sum_of(c) + x.1,
{
    assert forall|c: Seq<(Seq<char>, int)>, x: (Seq<char>, int)| #[trigger]
        sum_of(c.push(x)) == sum_of(c) + x.1 by {
        assert(c.push(x).drop_last() =~= c);
    }
}

} // verus!
