//! Mentions: which names are taken from a text, and how a text is cut up.

use vstd::prelude::*;

use crate::extract::{
    best_mentions, by_start, chunks, cleaned, cut_up, ends_sentence, generic, is_ascii_space,
    labels_in, last_gap, lead_len, leads_with, not_blank, same_name_at, seen, sentences,
    sentences_from, span_mention, span_mentions, tagged_mention, too_short, without_end,
    without_leading_marks, without_leads, without_trailing_marks, MentionModel, SpanModel,
};
use crate::laws::texts::law_trim_takes_outer_blanks;
use crate::matcher::byte_len;
use crate::order::{lemma_ranking, ranking};
use crate::text::{is_space, lowercase, trim, uppercase, words};

verus! {

// ---------------------------------------------------------------------------------------------
// Spans

/// A mention is left out that is one word of fewer than three bytes.
pub open spec fn says_too_little(t: Seq<char>) -> bool {
    words(t).len() == 1 && byte_len(t) < 3
}

/// The spans of a text give each name once, whatever the case, and none that says too little; none
/// is missed that says enough.
pub proof fn law_span_names_come_once(
    text: Seq<char>,
    spans: Seq<Option<(usize, usize)>>,
    k: int,
)
    ensures
        ({
            let r = span_mentions(text, spans);
            &&& forall|i: int, j: int|
                0 <= i < j < r.len() ==> lowercase((#[trigger] r[i]).text) != lowercase(
                    (#[trigger] r[j]).text,
                )
            &&& forall|i: int| 0 <= i < r.len() ==> !says_too_little((#[trigger] r[i]).text)
            &&& 0 <= k < spans.len() && spans[k] is Some && !says_too_little(
                span_mention(text, spans[k]->0).text,
            ) ==> exists|i: int|
                0 <= i < r.len() && lowercase((#[trigger] r[i]).text) == lowercase(
                    span_mention(text, spans[k]->0).text,
                )
            &&& r.len() <= spans.len()
        }),
    decreases spans.len(),
{
    if spans.len() > 0 {
        let most = spans.drop_last();
        law_span_names_come_once(text, most, k);
        let r0 = span_mentions(text, most);
        let r = span_mentions(text, spans);
        if let Some(span) = spans.last() {
            let m = span_mention(text, span);
            if !too_short(m.text) && !seen(r0, m.text) {
                assert forall|i: int, j: int| 0 <= i < j < r.len() implies lowercase(
                    (#[trigger] r[i]).text,
                ) != lowercase((#[trigger] r[j]).text) by {
                    assert(r[i] == r0[i]);
                    if j < r0.len() {
                        assert(r[j] == r0[j]);
                    }
                }
            }
            if seen(r0, m.text) {
                let i = choose|i: int|
                    0 <= i < r0.len() && lowercase((#[trigger] r0[i]).text) == lowercase(m.text);
                assert(r[i] == r0[i]);
            }
        }
        if 0 <= k < spans.len() && spans[k] is Some && !says_too_little(
            span_mention(text, spans[k]->0).text,
        ) {
            let name = span_mention(text, spans[k]->0).text;
            if k < most.len() {
                assert(most[k] == spans[k]);
                let i = choose|i: int|
                    0 <= i < r0.len() && lowercase((#[trigger] r0[i]).text) == lowercase(name);
                assert(r[i] == r0[i]);
            } else {
                assert(spans[k] == spans.last());
                if !seen(r0, name) {
                    assert(r[r0.len() as int].text == name);
                }
            }
        }
    }
}

// ---------------------------------------------------------------------------------------------
// Tagged spans

proof fn lemma_same_name_at(ms: Seq<MentionModel>, t: Seq<char>)
    ensures
        0 <= same_name_at(ms, t) <= ms.len(),
        same_name_at(ms, t) < ms.len() ==> lowercase(ms[same_name_at(ms, t)].text) == lowercase(t),
        forall|i: int|
            0 <= i < same_name_at(ms, t) ==> lowercase((#[trigger] ms[i]).text) != lowercase(t),
    decreases ms.len(),
{
    if ms.len() > 0 && lowercase(ms[0].text) != lowercase(t) {
        let rest = ms.drop_first();
        lemma_same_name_at(rest, t);
        let n = same_name_at(rest, t);
        if n < rest.len() {
            assert(rest[n] == ms[n + 1]);
        }
        assert forall|i: int| 0 <= i < n + 1 implies lowercase((#[trigger] ms[i]).text)
            != lowercase(t) by {
            if i > 0 {
                assert(rest[i - 1] == ms[i]);
            }
        }
    }
}

/// A text with no upper case letter and no digit names nothing in particular.
pub open spec fn names_nothing(t: Seq<char>) -> bool {
    forall|i: int|
        0 <= i < t.len() ==> !uppercase(#[trigger] t[i]) && !crate::text::is_ascii_digit(t[i])
}

/// Tagged spans give each name once, whatever the case: with the label and the place of its surest
/// span, and none that is empty or names nothing; every other name is there.
pub proof fn law_surest_span_of_a_name_counts(
    spans: Seq<SpanModel>,
    bases: Seq<usize>,
    k: int,
)
    ensures
        ({
            let r = best_mentions(spans, bases);
            let m = tagged_mention(spans[k], bases);
            &&& forall|i: int, j: int|
                0 <= i < j < r.len() ==> lowercase((#[trigger] r[i]).text) != lowercase(
                    (#[trigger] r[j]).text,
                )
            &&& forall|i: int|
                0 <= i < r.len() ==> (#[trigger] r[i]).text.len() > 0 && !names_nothing(r[i].text)
                    && exists|s: int|
                    0 <= s < spans.len() && r[i] == tagged_mention(#[trigger] spans[s], bases)
            &&& 0 <= k < spans.len() && m.text.len() > 0 && !names_nothing(m.text) ==> exists|
                i: int,
            |
                0 <= i < r.len() && lowercase((#[trigger] r[i]).text) == lowercase(m.text)
                    && r[i].score.rank() >= m.score.rank()
        }),
    decreases spans.len(),
{
    if spans.len() > 0 {
        let most = spans.drop_last();
        let n = spans.len() - 1;
        law_surest_span_of_a_name_counts(most, bases, k);
        let r0 = best_mentions(most, bases);
        let r = best_mentions(spans, bases);
        let m = tagged_mention(spans.last(), bases);
        let at = same_name_at(r0, m.text);
        lemma_same_name_at(r0, m.text);
        assert(spans[n] == spans.last());
        let takes = m.text.len() > 0 && !generic(m.text);
        assert forall|i: int| 0 <= i < r.len() implies (#[trigger] r[i]).text.len() > 0
            && !names_nothing(r[i].text) && exists|s: int|
            0 <= s < spans.len() && r[i] == tagged_mention(#[trigger] spans[s], bases) by {
            if i < r0.len() && r[i] == r0[i] {
                let s = choose|s: int|
                    0 <= s < most.len() && r0[i] == tagged_mention(#[trigger] most[s], bases);
                assert(spans[s] == most[s]);
            } else {
                assert(r[i] == m);
            }
        }
        assert forall|i: int, j: int| 0 <= i < j < r.len() implies lowercase(
            (#[trigger] r[i]).text,
        ) != lowercase((#[trigger] r[j]).text) by {
            if j < r0.len() {
                assert(lowercase(r0[i].text) != lowercase(r0[j].text));
            }
        }
        if 0 <= k < spans.len() {
            let mk = tagged_mention(spans[k], bases);
            if mk.text.len() > 0 && !names_nothing(mk.text) {
                if k < n {
                    assert(most[k] == spans[k]);
                    let i = choose|i: int|
                        0 <= i < r0.len() && lowercase((#[trigger] r0[i]).text) == lowercase(
                            mk.text,
                        ) && r0[i].score.rank() >= mk.score.rank();
                    assert(lowercase(r[i].text) == lowercase(mk.text) && r[i].score.rank()
                        >= mk.score.rank());
                } else {
                    assert(takes);
                    assert(lowercase(r[at].text) == lowercase(mk.text) && r[at].score.rank()
                        >= mk.score.rank());
                }
            }
        }
    }
}

/// Mentions are handed out in the order in which they begin, each once.
pub proof fn law_mentions_stand_in_order(ms: Seq<MentionModel>, m: MentionModel)
    ensures
        by_start(ms).len() == ms.len(),
        by_start(ms).contains(m) <==> ms.contains(m),
        forall|i: int, j: int|
            0 <= i < j < ms.len() ==> (#[trigger] by_start(ms)[i]).start <= (
            #[trigger] by_start(ms)[j]).start,
{
    let keys = Seq::new(ms.len(), |i: int| -(ms[i].start as int));
    let order = ranking(keys);
    let r = by_start(ms);
    lemma_ranking(keys);
    if r.contains(m) {
        let k = choose|k: int| 0 <= k < r.len() && r[k] == m;
        assert(ms[order[k]] == m);
    }
    if ms.contains(m) {
        let k = choose|k: int| 0 <= k < ms.len() && ms[k] == m;
        assert(order.contains(k));
        let n = choose|n: int| 0 <= n < order.len() && order[n] == k;
        assert(r[n] == m);
    }
    assert forall|i: int, j: int| 0 <= i < j < ms.len() implies (#[trigger] r[i]).start <= (
    #[trigger] r[j]).start by {
        assert(crate::order::ranks_before(keys, order[i], order[j]));
    }
}

// ---------------------------------------------------------------------------------------------
// Clean names

/// The text begins with one of the words that belong to no name, and something follows.
pub open spec fn has_lead(s: Seq<char>) -> bool {
    ||| leads_with(s, "and "@)
    ||| leads_with(s, "or "@)
    ||| leads_with(s, "the "@)
    ||| leads_with(s, "a "@)
    ||| leads_with(s, "an "@)
    ||| leads_with(s, "of "@)
    ||| leads_with(s, "at "@)
    ||| leads_with(s, "in "@)
    ||| leads_with(s, "by "@)
}

proof fn lemma_marks_shorten(s: Seq<char>)
    ensures
        without_leading_marks(s).len() <= s.len(),
    decreases s.len(),
{
    if s.len() > 0 && crate::extract::is_mark(s[0]) {
        lemma_marks_shorten(s.drop_first());
    }
}

proof fn lemma_lead_words()
    ensures
        "and "@.len() == 4,
        "or "@.len() == 3,
        "the "@.len() == 4,
        "a "@.len() == 2,
        "an "@.len() == 3,
        "of "@.len() == 3,
        "at "@.len() == 3,
        "in "@.len() == 3,
        "by "@.len() == 3,
{
    reveal_strlit("and ");
    reveal_strlit("or ");
    reveal_strlit("the ");
    reveal_strlit("a ");
    reveal_strlit("an ");
    reveal_strlit("of ");
    reveal_strlit("at ");
    reveal_strlit("in ");
    reveal_strlit("by ");
}

proof fn lemma_without_leads(s: Seq<char>)
    ensures
        !has_lead(without_leads(s)),
    decreases s.len(),
{
    lemma_lead_words();
    let n = lead_len(s);
    if has_lead(s) {
        assert(0 < n <= s.len());
        lemma_marks_shorten(s.skip(n));
        lemma_without_leads(without_leading_marks(s.skip(n)));
    } else {
        assert(n == 0);
    }
}

proof fn lemma_trailing_is_prefix(s: Seq<char>)
    ensures
        without_trailing_marks(s).len() <= s.len(),
        without_trailing_marks(s) == s.take(without_trailing_marks(s).len() as int),
    decreases s.len(),
{
    if s.len() > 0 && crate::extract::is_mark(s.last()) {
        lemma_trailing_is_prefix(s.drop_last());
        let t = without_trailing_marks(s.drop_last());
        assert(s.drop_last().take(t.len() as int) =~= s.take(t.len() as int));
    } else {
        assert(s.take(s.len() as int) =~= s);
    }
}

proof fn lemma_prefix_has_no_lead(s: Seq<char>, n: int)
    requires
        0 <= n <= s.len(),
        !has_lead(s),
    ensures
        !has_lead(s.take(n)),
{
    let t = s.take(n);
    lemma_lead_words();
    lemma_prefix_lead(s, n, "and "@);
    lemma_prefix_lead(s, n, "or "@);
    lemma_prefix_lead(s, n, "the "@);
    lemma_prefix_lead(s, n, "a "@);
    lemma_prefix_lead(s, n, "an "@);
    lemma_prefix_lead(s, n, "of "@);
    lemma_prefix_lead(s, n, "at "@);
    lemma_prefix_lead(s, n, "in "@);
    lemma_prefix_lead(s, n, "by "@);
}

proof fn lemma_prefix_lead(s: Seq<char>, n: int, word: Seq<char>)
    requires
        0 <= n <= s.len(),
    ensures
        leads_with(s.take(n), word) ==> leads_with(s, word),
{
    if leads_with(s.take(n), word) {
        assert(s.take(n).take(word.len() as int) =~= s.take(word.len() as int));
    }
}

/// A clean mention does not begin with an article, a conjunction or a preposition.
pub proof fn law_clean_mentions_have_no_lead(raw: Seq<char>)
    ensures
        !has_lead(cleaned(raw)),
{
    let s = without_leads(without_trailing_marks(without_leading_marks(trim(raw))));
    lemma_without_leads(without_trailing_marks(without_leading_marks(trim(raw))));
    let t = without_end(s, "'s"@);
    let n = t.len() as int;
    assert(t =~= s.take(n));
    let u = without_end(t, "’s"@);
    let m = u.len() as int;
    assert(u =~= s.take(m));
    lemma_trailing_is_prefix(u);
    let c = without_trailing_marks(u);
    assert(c =~= s.take(c.len() as int));
    lemma_prefix_has_no_lead(s, c.len() as int);
}

/// The labels of a setting: each part in lower case and without blanks around it, in order; what is
/// blank is left out.
pub proof fn law_labels_of_a_setting(ps: Seq<Seq<char>>, p: Seq<char>)
    ensures
        labels_in(seq![]).len() == 0,
        lowercase(trim(p)).len() == 0 ==> labels_in(ps.push(p)) == labels_in(ps),
        lowercase(trim(p)).len() > 0 ==> labels_in(ps.push(p)) == labels_in(ps).push(
            lowercase(trim(p)),
        ),
{
    assert(ps.push(p).drop_last() =~= ps);
}

// ---------------------------------------------------------------------------------------------
// Sentences

/// A sentence ends at a full stop, an exclamation or question mark or a line break that ends the
/// text or stands before a blank.
pub open spec fn is_end(s: Seq<char>, p: int) -> bool {
    &&& 0 <= p < s.len()
    &&& s[p] == '.' || s[p] == '!' || s[p] == '?' || s[p] == '\n'
    &&& p + 1 == s.len() || s[p + 1] == ' ' || s[p + 1] == '\t' || s[p + 1] == '\n' || s[p + 1]
        == '\u{c}' || s[p + 1] == '\r'
}

proof fn lemma_sentences_from(cur: Seq<char>, s: Seq<char>, p: int)
    requires
        0 <= p <= s.len(),
        forall|i: int| 0 <= i < p ==> !#[trigger] is_end(s, i),
        p < s.len() ==> is_end(s, p),
    ensures
        p < s.len() ==> sentences_from(cur, s) == seq![cur + s.take(p + 1)] + sentences(
            s.skip(p + 1),
        ),
        p == s.len() && (cur + s).len() > 0 ==> sentences_from(cur, s) == seq![cur + s],
        p == s.len() && (cur + s).len() == 0 ==> sentences_from(cur, s).len() == 0,
    decreases s.len(),
{
    if s.len() == 0 {
        assert(cur + s =~= cur);
    } else {
        assert(ends_sentence(s) <==> is_end(s, 0));
        let rest = s.drop_first();
        if p == 0 {
            assert(is_end(s, 0));
            assert(s.take(1) =~= seq![s[0]]);
            assert(cur + s.take(1) =~= cur.push(s[0]));
            assert(s.skip(1) =~= rest);
        } else {
            assert(!is_end(s, 0));
            assert forall|i: int| 0 <= i < p - 1 implies !#[trigger] is_end(rest, i) by {
                assert(!is_end(s, i + 1));
                if i + 1 < rest.len() {
                    assert(rest[i + 1] == s[i + 2]);
                }
            }
            if p < s.len() {
                if p < rest.len() {
                    assert(rest[p] == s[p + 1]);
                }
                assert(is_end(rest, p - 1));
            }
            lemma_sentences_from(cur.push(s[0]), rest, p - 1);
            if p < s.len() {
                assert(cur.push(s[0]) + rest.take(p) =~= cur + s.take(p + 1));
                assert(rest.skip(p) =~= s.skip(p + 1));
            } else {
                assert(cur.push(s[0]) + rest =~= cur + s);
            }
        }
    }
}

/// Where a text is cut into sentences: after each end and nowhere else.
pub proof fn law_sentences_are_cut_at_ends(s: Seq<char>, p: int)
    requires
        0 <= p <= s.len(),
        forall|i: int| 0 <= i < p ==> !#[trigger] is_end(s, i),
        p < s.len() ==> is_end(s, p),
    ensures
        p < s.len() ==> sentences(s) == seq![s.take(p + 1)] + sentences(s.skip(p + 1)),
        p == s.len() && s.len() > 0 ==> sentences(s) == seq![s],
{
    lemma_sentences_from(seq![], s, p);
    assert(Seq::<char>::empty() + s =~= s);
    if p < s.len() {
        assert(Seq::<char>::empty() + s.take(p + 1) =~= s.take(p + 1));
    }
}

/// No chunk is blank: in each stands something that is no white space.
pub proof fn law_chunks_say_something(text: Seq<char>, max: int, i: int)
    requires
        0 <= i < chunks(text, max).len(),
    ensures
        exists|k: int|
            0 <= k < chunks(text, max)[i].1.len() && !is_space(
                #[trigger] chunks(text, max)[i].1[k],
            ),
{
    lemma_no_blanks(
        crate::extract::packed(crate::extract::chunk_parts(text, max), max, seq![], 0, 0),
        i,
    );
}

proof fn lemma_no_blanks(cs: Seq<(int, Seq<char>)>, i: int)
    requires
        0 <= i < not_blank(cs).len(),
    ensures
        exists|k: int|
            0 <= k < not_blank(cs)[i].1.len() && !is_space(#[trigger] not_blank(cs)[i].1[k]),
    decreases cs.len(),
{
    let most = cs.drop_last();
    if i < not_blank(most).len() {
        lemma_no_blanks(most, i);
        assert(not_blank(cs)[i] == not_blank(most)[i]);
    } else {
        let t = cs.last().1;
        assert(not_blank(cs)[i] == cs.last());
        law_trim_takes_outer_blanks(t);
        let (a, b) = choose|a: int, b: int|
            #![trigger t.subrange(a, b)]
            0 <= a <= b <= t.len() && trim(t) == t.subrange(a, b) && (forall|k: int|
                (0 <= k < a || b <= k < t.len()) ==> is_space(#[trigger] t[k]));
        assert(trim(t)[0] == t[a]);
        assert(!is_space(not_blank(cs)[i].1[a]));
    }
}

proof fn lemma_gap_is_last(s: Seq<char>, n: int)
    requires
        0 <= n <= s.len(),
    ensures
        0 <= last_gap(s, n) <= n,
        last_gap(s, n) > 0 ==> is_ascii_space(s[last_gap(s, n) - 1]),
        forall|k: int| last_gap(s, n) <= k < n ==> !is_ascii_space(#[trigger] s[k]),
    decreases n,
{
    if n > 0 && !is_ascii_space(s[n - 1]) {
        lemma_gap_is_last(s, n - 1);
    }
}

/// A text that is too long is cut behind the last blank that keeps its first part within the limit,
/// and at the limit only where there is no such blank; one that is not too long stays whole.
pub proof fn law_long_texts_are_cut_at_blanks(s: Seq<char>, max: int)
    requires
        max > 0,
    ensures
        s.len() <= max ==> cut_up(s, max) == seq![s],
        s.len() > max ==> {
            let first = cut_up(s, max)[0];
            let n = first.len() as int;
            &&& 0 < n <= max
            &&& first == s.take(n)
            &&& n < max ==> is_ascii_space(first.last())
            &&& is_ascii_space(first.last()) || (forall|k: int|
                0 <= k < max ==> !is_ascii_space(#[trigger] s[k]))
            &&& forall|k: int| n <= k < max ==> !is_ascii_space(#[trigger] s[k])
            &&& cut_up(s, max).drop_first() == cut_up(s.skip(n), max)
        },
{
    if s.len() > max {
        lemma_gap_is_last(s, max);
        let n = crate::extract::cut_at(s, max);
        assert(cut_up(s, max) == seq![s.take(n)] + cut_up(s.skip(n), max));
        assert(cut_up(s, max)[0] == s.take(n));
        assert(s.take(n).last() == s[n - 1]);
        assert(cut_up(s, max).drop_first() =~= cut_up(s.skip(n), max));
    }
}

} // verus!
