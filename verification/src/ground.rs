//! Relation grounding. Mention grounding (the name occurs in the text) stops invented entities;
//! it does nothing about invented relations between real entities: a small model will happily
//! emit "Samsung acquired OpenAI" from an article that mentions both. A typed relation is
//! accepted only when the two names occur near each other in the source text and, for
//! consequential relation types, a lexical cue for that relation sits in the same window; and
//! the entity types make sense for the relation.
//!
//! Positions are byte offsets into the UTF-8 form of the text; distances are counted in
//! characters.

use vstd::prelude::*;
use vstd::string::*;
use vstd::utf8::*;

use crate::matcher::byte_len;
use crate::text::{
    ascii_lower, find_bytes, first_from, is_space, lemma_first_from, lemma_trim_keeps, lowercase,
    occurs, occurs_at, str_eq, trim, trimmed,
};

verus! {

/// Characters between the two mentions within which they count as "near".
pub const PROXIMITY: usize = 400;

/// The words one of which must stand near a consequential relation; none are asked of others.
pub open spec fn cue_words(rel: Seq<char>) -> Option<Seq<Seq<char>>> {
    if rel == "acquired"@ || rel == "acquired_by"@ || rel == "merged_with"@ {
        Some(seq!["acqui"@, "buy"@, "bought"@, "purchas"@, "takeover"@, "merg"@, "deal to"@, "sold to"@])
    } else if rel == "ceo_of"@ {
        Some(seq!["ceo"@, "chief executive"@])
    } else if rel == "cfo_of"@ {
        Some(seq!["cfo"@, "chief financial"@])
    } else if rel == "cto_of"@ {
        Some(seq!["cto"@, "chief technology"@, "chief technical"@])
    } else if rel == "chairman_of"@ || rel == "chair_of"@ {
        Some(seq!["chair"@])
    } else if rel == "founder_of"@ || rel == "cofounder_of"@ || rel == "co_founder_of"@ {
        Some(seq!["found"@, "started"@, "created"@])
    } else if rel == "suing"@ || rel == "sued_by"@ || rel == "sues"@ || rel == "lawsuit_against"@ {
        Some(seq!["sue"@, "suit"@, "litigat"@, "court"@, "complaint"@, "legal action"@, "plaintiff"@, "defendant"@])
    } else if rel == "invested_in"@ || rel == "investor_in"@ || rel == "funded"@ || rel == "funded_by"@ || rel == "backed_by"@ {
        Some(seq!["invest"@, "fund"@, "raised"@, "round"@, "backed"@, "stake"@, "capital"@, "valuation"@])
    } else if rel == "partner_of"@ || rel == "partnered_with"@ || rel == "partners_with"@ {
        Some(seq!["partner"@, "collaborat"@, "team up"@, "teamed up"@, "alliance"@, "agreement"@, "deal"@, "joint"@])
    } else if rel == "headquartered_in"@ || rel == "based_in"@ {
        Some(seq!["headquart"@, "based"@, "hq"@, "offices"@])
    } else if rel == "competes_with"@ || rel == "competitor_of"@ || rel == "rival_of"@ {
        Some(seq!["compet"@, "rival"@])
    } else if rel == "launched"@ || rel == "launches"@ {
        Some(seq!["launch"@, "releas"@, "unveil"@, "introduc"@, "announc"@])
    } else if rel == "indicted"@ || rel == "charged"@ || rel == "sanctioned"@ || rel == "fined"@ {
        Some(seq!["indict"@, "charg"@, "sanction"@, "fine"@, "penalt"@, "settle"@, "plead"@, "convict"@])
    } else {
        None
    }
}

/// What a list of words holds.
pub open spec fn word_views(v: Seq<&'static str>) -> Seq<Seq<char>> {
    Seq::new(v.len(), |i: int| v[i]@)
}

fn cues(rel: &str) -> (r: Option<Vec<&'static str>>)
    ensures
        match r {
            Some(ws) => cue_words(rel@) == Some(word_views(ws@)),
            None => cue_words(rel@) is None,
        },
{
    let r: Option<Vec<&'static str>> = if str_eq(rel, "acquired") || str_eq(rel, "acquired_by") || str_eq(rel, "merged_with") {
        Some(vec!["acqui", "buy", "bought", "purchas", "takeover", "merg", "deal to", "sold to"])
    } else if str_eq(rel, "ceo_of") {
        Some(vec!["ceo", "chief executive"])
    } else if str_eq(rel, "cfo_of") {
        Some(vec!["cfo", "chief financial"])
    } else if str_eq(rel, "cto_of") {
        Some(vec!["cto", "chief technology", "chief technical"])
    } else if str_eq(rel, "chairman_of") || str_eq(rel, "chair_of") {
        Some(vec!["chair"])
    } else if str_eq(rel, "founder_of") || str_eq(rel, "cofounder_of") || str_eq(rel, "co_founder_of") {
        Some(vec!["found", "started", "created"])
    } else if str_eq(rel, "suing") || str_eq(rel, "sued_by") || str_eq(rel, "sues") || str_eq(rel, "lawsuit_against") {
        Some(vec!["sue", "suit", "litigat", "court", "complaint", "legal action", "plaintiff", "defendant"])
    } else if str_eq(rel, "invested_in") || str_eq(rel, "investor_in") || str_eq(rel, "funded") || str_eq(rel, "funded_by") || str_eq(rel, "backed_by") {
        Some(vec!["invest", "fund", "raised", "round", "backed", "stake", "capital", "valuation"])
    } else if str_eq(rel, "partner_of") || str_eq(rel, "partnered_with") || str_eq(rel, "partners_with") {
        Some(vec!["partner", "collaborat", "team up", "teamed up", "alliance", "agreement", "deal", "joint"])
    } else if str_eq(rel, "headquartered_in") || str_eq(rel, "based_in") {
        Some(vec!["headquart", "based", "hq", "offices"])
    } else if str_eq(rel, "competes_with") || str_eq(rel, "competitor_of") || str_eq(rel, "rival_of") {
        Some(vec!["compet", "rival"])
    } else if str_eq(rel, "launched") || str_eq(rel, "launches") {
        Some(vec!["launch", "releas", "unveil", "introduc", "announc"])
    } else if str_eq(rel, "indicted") || str_eq(rel, "charged") || str_eq(rel, "sanctioned") || str_eq(rel, "fined") {
        Some(vec!["indict", "charg", "sanction", "fine", "penalt", "settle", "plead", "convict"])
    } else {
        None
    };
    proof {
        if r is Some {
            assert(word_views(r->0@) =~= cue_words(rel@)->0);
        }
    }
    r
}

/// Someone holds the role: the subject is a person.
pub open spec fn is_role(rel: Seq<char>) -> bool {
    rel == "ceo_of"@ || rel == "cfo_of"@ || rel == "cto_of"@ || rel == "chairman_of"@ || rel == "chair_of"@ || rel == "founder_of"@ || rel == "cofounder_of"@ || rel == "co_founder_of"@ || rel == "employed_by"@ || rel == "works_at"@ || rel == "member_of"@
}

fn role(rel: &str) -> (r: bool)
    ensures
        r == is_role(rel@),
{
    str_eq(rel, "ceo_of") || str_eq(rel, "cfo_of") || str_eq(rel, "cto_of") || str_eq(rel, "chairman_of") || str_eq(rel, "chair_of") || str_eq(rel, "founder_of") || str_eq(rel, "cofounder_of") || str_eq(rel, "co_founder_of") || str_eq(rel, "employed_by") || str_eq(rel, "works_at") || str_eq(rel, "member_of")
}

/// The object cannot be a person.
pub open spec fn takes_no_person(rel: Seq<char>) -> bool {
    rel == "acquired"@ || rel == "acquired_by"@ || rel == "merged_with"@ || rel == "invested_in"@ || rel == "headquartered_in"@ || rel == "based_in"@ || rel == "ceo_of"@ || rel == "cfo_of"@ || rel == "cto_of"@ || rel == "chairman_of"@ || rel == "founder_of"@
}

fn no_person_object(rel: &str) -> (r: bool)
    ensures
        r == takes_no_person(rel@),
{
    str_eq(rel, "acquired") || str_eq(rel, "acquired_by") || str_eq(rel, "merged_with") || str_eq(rel, "invested_in") || str_eq(rel, "headquartered_in") || str_eq(rel, "based_in") || str_eq(rel, "ceo_of") || str_eq(rel, "cfo_of") || str_eq(rel, "cto_of") || str_eq(rel, "chairman_of") || str_eq(rel, "founder_of")
}

/// Between organizations.
pub open spec fn is_deal(rel: Seq<char>) -> bool {
    rel == "acquired"@ || rel == "acquired_by"@ || rel == "merged_with"@ || rel == "invested_in"@
}

fn deal(rel: &str) -> (r: bool)
    ensures
        r == is_deal(rel@),
{
    str_eq(rel, "acquired") || str_eq(rel, "acquired_by") || str_eq(rel, "merged_with") || str_eq(rel, "invested_in")
}

/// The object is a place.
pub open spec fn is_place(rel: Seq<char>) -> bool {
    rel == "headquartered_in"@ || rel == "based_in"@ || rel == "located_in"@
}

fn place(rel: &str) -> (r: bool)
    ensures
        r == is_place(rel@),
{
    str_eq(rel, "headquartered_in") || str_eq(rel, "based_in") || str_eq(rel, "located_in")
}

/// Acquisitions, mergers and suits are claimed in one sentence ("X acquired Y"); a role can sit a
/// sentence away from the organization that it refers to ("...the Braintrust team. For founder
/// and CEO Ankur Goyal..."), so other cued relations search both sentences.
pub open spec fn in_one_sentence(rel: Seq<char>) -> bool {
    rel == "acquired"@ || rel == "acquired_by"@ || rel == "merged_with"@ || rel == "suing"@ || rel == "sued_by"@
}

fn same_sentence_required(rel: &str) -> (r: bool)
    ensures
        r == in_one_sentence(rel@),
{
    str_eq(rel, "acquired") || str_eq(rel, "acquired_by") || str_eq(rel, "merged_with") || str_eq(rel, "suing") || str_eq(rel, "sued_by")
}

/// The entity types make sense for the relation.
pub open spec fn types_fit(rel: Seq<char>, type_a: Seq<char>, type_b: Seq<char>) -> bool {
    let person_a = type_a == "person"@;
    let person_b = type_b == "person"@;
    let placeish_a = type_a == "location"@ || type_a == "event"@;
    let placeish_b = type_b == "location"@ || type_b == "event"@;
    &&& is_role(rel) ==> person_a || type_a == "other"@
    &&& takes_no_person(rel) ==> !person_b
    &&& is_deal(rel) ==> !placeish_a && !placeish_b && !person_a
    &&& is_place(rel) ==> type_b == "location"@ || type_b == "other"@
}

fn types_ok(rel: &str, type_a: &str, type_b: &str) -> (r: bool)
    ensures
        r == types_fit(rel@, type_a@, type_b@),
{
    let person_a = str_eq(type_a, "person");
    let person_b = str_eq(type_b, "person");
    let placeish_a = str_eq(type_a, "location") || str_eq(type_a, "event");
    let placeish_b = str_eq(type_b, "location") || str_eq(type_b, "event");
    if role(rel) && !(person_a || str_eq(type_a, "other")) {
        return false;
    }
    if no_person_object(rel) && person_b {
        return false;
    }
    if deal(rel) && (placeish_a || placeish_b || person_a) {
        return false;
    }
    if place(rel) && !str_eq(type_b, "location") && !str_eq(type_b, "other") {
        return false;
    }
    true
}

/// The positions of a name in the text from `from` on, one behind the other.
pub open spec fn occurrences_from(hay: Seq<u8>, needle: Seq<u8>, from: int) -> Seq<int>
    decreases hay.len() - from,
{
    match first_from(hay, needle, from) {
        None => seq![],
        Some(p) => if p < from || p + needle.len() >= hay.len() || needle.len() == 0 {
            seq![p]
        } else {
            seq![p] + occurrences_from(hay, needle, p + needle.len())
        },
    }
}

/// The positions of a name in the text; a name of less than two bytes has none.
pub open spec fn occurrences_of(hay: Seq<u8>, needle: Seq<u8>) -> Seq<int> {
    if needle.len() < 2 {
        seq![]
    } else {
        occurrences_from(hay, needle, 0)
    }
}

/// What a list of positions holds.
pub open spec fn places(v: Seq<usize>) -> Seq<int> {
    Seq::new(v.len(), |i: int| v[i] as int)
}

fn occurrences(hay: &[u8], needle: &[u8]) -> (r: Vec<usize>)
    ensures
        places(r@) == occurrences_of(hay@, needle@),
        forall|i: int| 0 <= i < r@.len() ==> #[trigger] r@[i] <= hay@.len(),
{
    let mut out: Vec<usize> = Vec::new();
    assert(places(out@) =~= seq![]);
    if needle.len() < 2 {
        return out;
    }
    let mut from: usize = 0;
    let mut more = true;
    assert(places(out@) + occurrences_from(hay@, needle@, 0) =~= occurrences_of(hay@, needle@));
    while more
        invariant
            from <= hay@.len(),
            needle@.len() >= 2,
            more ==> places(out@) + occurrences_from(hay@, needle@, from as int) == occurrences_of(
                hay@,
                needle@,
            ),
            !more ==> places(out@) == occurrences_of(hay@, needle@),
            forall|i: int| 0 <= i < out@.len() ==> #[trigger] out@[i] <= hay@.len(),
        decreases hay@.len() - from + if more {
            1int
        } else {
            0
        },
    {
        let ghost done = places(out@);
        proof {
            lemma_first_from(hay@, needle@, from as int);
        }
        match find_bytes(hay, needle, from) {
            Some(p) => {
                out.push(p);
                assert(p + needle.len() <= hay.len());
                from = p + needle.len();
                proof {
                    assert(places(out@) =~= done.push(p as int));
                    assert(done + seq![p as int] =~= done.push(p as int));
                    let tail = occurrences_from(hay@, needle@, from as int);
                    assert(done + (seq![p as int] + tail) =~= done.push(p as int) + tail);
                }
                if from >= hay.len() {
                    more = false;
                }
            },
            None => {
                more = false;
                assert(done + Seq::<int>::empty() =~= done);
            },
        }
    }
    out
}

/// How many characters begin before byte `i`: every byte but a continuation byte begins one.
pub open spec fn chars_before(t: Seq<u8>, i: int) -> int
    decreases i,
{
    if i <= 0 {
        0
    } else if is_continuation_byte(t[i - 1]) {
        chars_before(t, i - 1)
    } else {
        chars_before(t, i - 1) + 1
    }
}

/// The distance of two positions, in characters.
pub open spec fn gap(t: Seq<u8>, x: int, y: int) -> int {
    if chars_before(t, x) >= chars_before(t, y) {
        chars_before(t, x) - chars_before(t, y)
    } else {
        chars_before(t, y) - chars_before(t, x)
    }
}

proof fn lemma_chars_before_joined(a: Seq<u8>, b: Seq<u8>, i: int)
    requires
        0 <= i <= b.len(),
    ensures
        chars_before(a + b, a.len() + i) == chars_before(a, a.len() as int) + chars_before(b, i),
    decreases i,
{
    if i == 0 {
        lemma_chars_before_agree(a + b, a, a.len() as int);
    } else {
        lemma_chars_before_joined(a, b, i - 1);
        assert((a + b)[a.len() + i - 1] == b[i - 1]);
    }
}

proof fn lemma_chars_before_agree(a: Seq<u8>, b: Seq<u8>, i: int)
    requires
        i <= a.len(),
        i <= b.len(),
        forall|k: int| 0 <= k < i ==> a[k] == b[k],
    ensures
        chars_before(a, i) == chars_before(b, i),
    decreases i,
{
    if i > 0 {
        lemma_chars_before_agree(a, b, i - 1);
    }
}

proof fn lemma_one_character(c: char)
    ensures
        chars_before(encode_scalar(c as u32), encode_scalar(c as u32).len() as int) == 1,
{
    let e = encode_scalar(c as u32);
    encode_utf8_first_scalar(seq![c]);
    let one = seq![c];
    reveal_with_fuel(encode_utf8, 2);
    assert(one.drop_first() =~= Seq::<char>::empty());
    assert(encode_utf8(one) =~= e + encode_utf8(one.drop_first()));
    assert(encode_utf8(one) =~= e);
    reveal_with_fuel(chars_before, 5);
}

proof fn lemma_characters_counted(s: Seq<char>)
    ensures
        chars_before(encode_utf8(s), encode_utf8(s).len() as int) == s.len(),
    decreases s.len(),
{
    if s.len() > 0 {
        let first = encode_scalar(s[0] as u32);
        let rest = encode_utf8(s.drop_first());
        lemma_one_character(s[0]);
        lemma_characters_counted(s.drop_first());
        lemma_chars_before_joined(first, rest, rest.len() as int);
    }
}

proof fn lemma_encode_joined(a: Seq<char>, b: Seq<char>)
    ensures
        encode_utf8(a + b) == encode_utf8(a) + encode_utf8(b),
    decreases a.len(),
{
    if a.len() == 0 {
        assert(a + b =~= b);
        assert(encode_utf8(a) + encode_utf8(b) =~= encode_utf8(b));
    } else {
        lemma_encode_joined(a.drop_first(), b);
        assert((a + b).drop_first() =~= a.drop_first() + b);
        assert(encode_utf8(a + b) =~= encode_utf8(a) + encode_utf8(b));
    }
}

/// The distance of two places in a text is the number of characters between them, however many
/// bytes these take.
pub proof fn law_distance_is_in_characters(s: Seq<char>, i: int, j: int)
    requires
        0 <= i <= j <= s.len(),
    ensures
        gap(encode_utf8(s), byte_len(s.take(i)) as int, byte_len(s.take(j)) as int) == j - i,
{
    lemma_chars_at(s, i);
    lemma_chars_at(s, j);
}

proof fn lemma_chars_at(s: Seq<char>, i: int)
    requires
        0 <= i <= s.len(),
    ensures
        chars_before(encode_utf8(s), byte_len(s.take(i)) as int) == i,
{
    let (a, b) = (s.take(i), s.skip(i));
    assert(a + b =~= s);
    lemma_encode_joined(a, b);
    lemma_characters_counted(a);
    lemma_chars_before_agree(encode_utf8(s), encode_utf8(a), encode_utf8(a).len() as int);
}

/// The pair and its gap are near, and nearer than what is known.
pub open spec fn nearer(t: Seq<u8>, best: Option<(int, int)>, x: int, y: int) -> bool {
    gap(t, x, y) <= PROXIMITY && match best {
        Some((u, v)) => gap(t, x, y) < gap(t, u, v),
        None => true,
    }
}

/// The nearest of the known pair and the pairs of `x` with the positions `ob`.
pub open spec fn nearest_to(
    t: Seq<u8>,
    best: Option<(int, int)>,
    x: int,
    ob: Seq<int>,
) -> Option<(int, int)>
    decreases ob.len(),
{
    if ob.len() == 0 {
        best
    } else {
        let r = nearest_to(t, best, x, ob.drop_last());
        if nearer(t, r, x, ob.last()) {
            Some((x, ob.last()))
        } else {
            r
        }
    }
}

/// The nearest pair of two lists of positions, the first of several, if one is near.
pub open spec fn nearest(t: Seq<u8>, oa: Seq<int>, ob: Seq<int>) -> Option<(int, int)>
    decreases oa.len(),
{
    if oa.len() == 0 {
        None
    } else {
        nearest_to(t, nearest(t, oa.drop_last(), ob), oa.last(), ob)
    }
}

/// The pair is near and made of the two lists.
pub open spec fn is_near_pair(t: Seq<u8>, oa: Seq<int>, ob: Seq<int>, p: (int, int)) -> bool {
    oa.contains(p.0) && ob.contains(p.1) && gap(t, p.0, p.1) <= PROXIMITY
}

proof fn lemma_nearest_to(t: Seq<u8>, best: Option<(int, int)>, x: int, ob: Seq<int>)
    ensures
        match nearest_to(t, best, x, ob) {
            Some(p) => best == Some(p) || (p.0 == x && ob.contains(p.1) && gap(t, p.0, p.1)
                <= PROXIMITY),
            None => best is None,
        },
        best matches Some(q) ==> (nearest_to(t, best, x, ob) matches Some(p) && gap(t, p.0, p.1)
            <= gap(t, q.0, q.1)),
        forall|j: int|
            0 <= j < ob.len() && gap(t, x, #[trigger] ob[j]) <= PROXIMITY ==> (nearest_to(
                t,
                best,
                x,
                ob,
            ) matches Some(p) && gap(t, p.0, p.1) <= gap(t, x, ob[j])),
    decreases ob.len(),
{
    if ob.len() > 0 {
        let most = ob.drop_last();
        lemma_nearest_to(t, best, x, most);
        let r = nearest_to(t, best, x, ob);
        let r0 = nearest_to(t, best, x, most);
        if let Some(p) = r0 {
            if r == r0 && most.contains(p.1) {
                let k = choose|k: int| 0 <= k < most.len() && most[k] == p.1;
                assert(ob[k] == p.1);
            }
        }
        assert(ob[ob.len() - 1] == ob.last());
        assert forall|j: int|
            0 <= j < ob.len() && gap(t, x, #[trigger] ob[j]) <= PROXIMITY implies (r matches Some(
            p,
        ) && gap(t, p.0, p.1) <= gap(t, x, ob[j])) by {
            if j < most.len() {
                assert(most[j] == ob[j]);
            }
        }
    }
}

/// The nearest pair is near, no pair is nearer, and there is one wherever a pair is near.
pub proof fn lemma_nearest(t: Seq<u8>, oa: Seq<int>, ob: Seq<int>)
    ensures
        match nearest(t, oa, ob) {
            Some(p) => is_near_pair(t, oa, ob, p) && forall|q: (int, int)|
                is_near_pair(t, oa, ob, q) ==> gap(t, p.0, p.1) <= #[trigger] gap(t, q.0, q.1),
            None => forall|q: (int, int)| !is_near_pair(t, oa, ob, q),
        },
    decreases oa.len(),
{
    if oa.len() > 0 {
        let most = oa.drop_last();
        let x = oa.last();
        lemma_nearest(t, most, ob);
        let r0 = nearest(t, most, ob);
        lemma_nearest_to(t, r0, x, ob);
        let r = nearest(t, oa, ob);
        assert(oa[oa.len() - 1] == x);
        if let Some(p) = r {
            if r == r0 {
                let k = choose|k: int| 0 <= k < most.len() && most[k] == p.0;
                assert(oa[k] == p.0);
            }
            assert(is_near_pair(t, oa, ob, p));
        }
        assert forall|q: (int, int)| is_near_pair(t, oa, ob, q) implies (r matches Some(p) && gap(
            t,
            p.0,
            p.1,
        ) <= #[trigger] gap(t, q.0, q.1)) by {
            let j = choose|j: int| 0 <= j < ob.len() && ob[j] == q.1;
            let i = choose|i: int| 0 <= i < oa.len() && oa[i] == q.0;
            if i < most.len() {
                assert(most[i] == q.0);
                assert(is_near_pair(t, most, ob, q));
            } else {
                assert(gap(t, x, ob[j]) <= PROXIMITY);
            }
        }
        if r is None {
            assert forall|q: (int, int)| !is_near_pair(t, oa, ob, q) by {
                if is_near_pair(t, oa, ob, q) {
                    assert(gap(t, q.0, q.1) <= PROXIMITY);
                }
            }
        }
    }
}

/// For every position up to the end of the text, how many characters begin before it.
fn count_chars(t: &[u8]) -> (r: Vec<usize>)
    ensures
        r@.len() == t@.len() + 1,
        forall|i: int| 0 <= i <= t@.len() ==> #[trigger] r@[i] == chars_before(t@, i),
{
    let mut out: Vec<usize> = Vec::new();
    out.push(0);
    let mut n: usize = 0;
    let mut i: usize = 0;
    while i < t.len()
        invariant
            i <= t@.len(),
            n <= i,
            n == chars_before(t@, i as int),
            out@.len() == i + 1,
            forall|k: int| 0 <= k <= i ==> #[trigger] out@[k] == chars_before(t@, k),
        decreases t.len() - i,
    {
        let b = t[i];
        if !(0x80 <= b && b <= 0xbf) {
            n += 1;
        }
        i += 1;
        out.push(n);
    }
    out
}

fn distance(x: usize, y: usize) -> (r: usize)
    ensures
        r == if x >= y {
            x - y
        } else {
            y - x
        },
{
    if x >= y {
        x - y
    } else {
        y - x
    }
}

/// What an optional pair of positions holds.
pub open spec fn pair_view(o: Option<(usize, usize)>) -> Option<(int, int)> {
    match o {
        Some((x, y)) => Some((x as int, y as int)),
        None => None,
    }
}

/// Closest pair of occurrences, if within the proximity.
fn nearest_pair(text: &[u8], a: &[u8], b: &[u8]) -> (r: Option<(usize, usize)>)
    ensures
        pair_view(r) == nearest(text@, occurrences_of(text@, a@), occurrences_of(text@, b@)),
        r matches Some((x, y)) ==> x <= text@.len() && y <= text@.len(),
{
    let oa = occurrences(text, a);
    let ob = occurrences(text, b);
    let counts = count_chars(text);
    let ghost av = places(oa@);
    let ghost bv = places(ob@);
    let mut best: Option<(usize, usize)> = None;
    let mut i: usize = 0;
    assert(av.take(0) =~= seq![]);
    while i < oa.len()
        invariant
            i <= oa@.len(),
            av == places(oa@),
            bv == places(ob@),
            counts@.len() == text@.len() + 1,
            forall|i: int|
                0 <= i <= text@.len() ==> #[trigger] counts@[i] == chars_before(text@, i),
            forall|i: int| 0 <= i < oa@.len() ==> #[trigger] oa@[i] <= text@.len(),
            forall|i: int| 0 <= i < ob@.len() ==> #[trigger] ob@[i] <= text@.len(),
            best matches Some((x, y)) ==> x <= text@.len() && y <= text@.len(),
            pair_view(best) == nearest(text@, av.take(i as int), bv),
        decreases oa.len() - i,
    {
        assert(av.take(i + 1).drop_last() =~= av.take(i as int));
        assert(av.take(i + 1).last() == oa@[i as int]);
        let ghost start = pair_view(best);
        let x = oa[i];
        let mut j: usize = 0;
        assert(bv.take(0) =~= seq![]);
        while j < ob.len()
            invariant
                j <= ob@.len(),
                bv == places(ob@),
                counts@.len() == text@.len() + 1,
                forall|i: int|
                    0 <= i <= text@.len() ==> #[trigger] counts@[i] == chars_before(text@, i),
                x <= text@.len(),
                forall|i: int| 0 <= i < ob@.len() ==> #[trigger] ob@[i] <= text@.len(),
                best matches Some((x, y)) ==> x <= text@.len() && y <= text@.len(),
                pair_view(best) == nearest_to(text@, start, x as int, bv.take(j as int)),
            decreases ob.len() - j,
        {
            assert(bv.take(j + 1).drop_last() =~= bv.take(j as int));
            assert(bv.take(j + 1).last() == ob@[j as int]);
            let y = ob[j];
            let g = distance(counts[x], counts[y]);
            let better = g <= PROXIMITY && match best {
                Some((u, v)) => g < distance(counts[u], counts[v]),
                None => true,
            };
            if better {
                best = Some((x, y));
            }
            j += 1;
        }
        assert(bv.take(j as int) =~= bv);
        i += 1;
    }
    assert(av.take(i as int) =~= av);
    best
}

/// The white space of ASCII, as a byte.
pub open spec fn is_space_byte(b: u8) -> bool {
    b == 0x20 || b == 0x09 || b == 0x0a || b == 0x0c || b == 0x0d
}

/// A sentence ends with the byte at `i`: a newline, or `.`, `!` or `?` before white space or the
/// end of the text.
pub open spec fn ends_at(t: Seq<u8>, i: int) -> bool {
    ||| t[i] == 0x0a
    ||| (t[i] == 0x2e || t[i] == 0x21 || t[i] == 0x3f) && (i + 1 >= t.len() || is_space_byte(
        t[i + 1],
    ))
}

/// Where the sentence that holds position `pos` begins.
pub open spec fn sentence_start(t: Seq<u8>, pos: int) -> int
    decreases pos,
{
    if pos <= 0 || ends_at(t, pos - 1) {
        pos
    } else {
        sentence_start(t, pos - 1)
    }
}

/// Where the sentence that holds position `pos` ends.
pub open spec fn sentence_end(t: Seq<u8>, pos: int) -> int
    decreases t.len() - pos,
{
    if pos >= t.len() || ends_at(t, pos) {
        pos
    } else {
        sentence_end(t, pos + 1)
    }
}

fn is_end(t: &[u8], i: usize) -> (r: bool)
    requires
        i < t@.len(),
    ensures
        r == ends_at(t@, i as int),
{
    let b = t[i];
    if b == 0x0a {
        true
    } else if b == 0x2e || b == 0x21 || b == 0x3f {
        if i + 1 >= t.len() {
            true
        } else {
            let c = t[i + 1];
            c == 0x20 || c == 0x09 || c == 0x0a || c == 0x0c || c == 0x0d
        }
    } else {
        false
    }
}

/// The byte range is that of a sentence: no terminator stands in it, one stands before it and one
/// behind it unless the text ends there.
pub open spec fn is_sentence(t: Seq<u8>, lo: int, hi: int) -> bool {
    &&& 0 <= lo <= hi <= t.len()
    &&& forall|i: int| lo <= i < hi ==> !#[trigger] ends_at(t, i)
    &&& lo == 0 || ends_at(t, lo - 1)
    &&& hi == t.len() || ends_at(t, hi)
}

/// Byte range of the sentence containing `pos`: from the previous terminator (`.`, `!`, `?`
/// followed by white space, or a newline) to the next one. Every position of the sentence has the
/// same range.
pub fn sentence_bounds(text: &str, pos: usize) -> (r: (usize, usize))
    requires
        pos <= encode_utf8(text@).len(),
    ensures
        ({
            let t = encode_utf8(text@);
            &&& r.0 == sentence_start(t, pos as int)
            &&& r.1 == sentence_end(t, pos as int)
            &&& r.0 <= pos <= r.1
            &&& is_sentence(t, r.0 as int, r.1 as int)
            &&& forall|q: int|
                r.0 <= q <= r.1 ==> #[trigger] sentence_start(t, q) == r.0 && sentence_end(t, q)
                    == r.1
        }),
{
    let t = text.as_bytes();
    proof {
        law_sentence_bounds(t@, pos as int);
    }
    bounds_at(t, pos)
}

fn bounds_at(t: &[u8], pos: usize) -> (r: (usize, usize))
    requires
        pos <= t@.len(),
    ensures
        r.0 == sentence_start(t@, pos as int),
        r.1 == sentence_end(t@, pos as int),
        r.0 <= pos <= r.1 <= t@.len(),
{
    let mut lo: usize = pos;
    while lo > 0 && !is_end(t, lo - 1)
        invariant
            lo <= pos <= t@.len(),
            sentence_start(t@, pos as int) == sentence_start(t@, lo as int),
        decreases lo,
    {
        lo -= 1;
    }
    let mut hi: usize = pos;
    while hi < t.len() && !is_end(t, hi)
        invariant
            pos <= hi <= t@.len(),
            sentence_end(t@, pos as int) == sentence_end(t@, hi as int),
        decreases t.len() - hi,
    {
        hi += 1;
    }
    (lo, hi)
}

/// The bounds of a sentence: no terminator stands between them, one stands before the first and at
/// the second unless the text ends there, and every position of the sentence has the same bounds.
pub proof fn law_sentence_bounds(t: Seq<u8>, pos: int)
    requires
        0 <= pos <= t.len(),
    ensures
        ({
            let (lo, hi) = (sentence_start(t, pos), sentence_end(t, pos));
            &&& lo <= pos <= hi
            &&& is_sentence(t, lo, hi)
            &&& forall|q: int| lo <= q <= hi ==> #[trigger] sentence_start(t, q) == lo
            &&& forall|q: int| lo <= q <= hi ==> #[trigger] sentence_end(t, q) == hi
        }),
{
    let (lo, hi) = (sentence_start(t, pos), sentence_end(t, pos));
    lemma_sentence_start(t, pos);
    lemma_sentence_end(t, pos);
    assert forall|q: int| lo <= q <= hi implies #[trigger] sentence_start(t, q) == lo by {
        lemma_sentence_start(t, q);
        let l = sentence_start(t, q);
        if l < lo {
            assert(!ends_at(t, lo - 1));
        }
        if l > lo {
            assert(!ends_at(t, l - 1));
        }
    }
    assert forall|q: int| lo <= q <= hi implies #[trigger] sentence_end(t, q) == hi by {
        lemma_sentence_end(t, q);
        let h = sentence_end(t, q);
        if h < hi {
            assert(!ends_at(t, h));
        }
        if h > hi {
            assert(!ends_at(t, hi));
        }
    }
}

proof fn lemma_sentence_start(t: Seq<u8>, pos: int)
    requires
        0 <= pos,
    ensures
        0 <= sentence_start(t, pos) <= pos,
        forall|i: int| sentence_start(t, pos) <= i < pos ==> !#[trigger] ends_at(t, i),
        sentence_start(t, pos) == 0 || ends_at(t, sentence_start(t, pos) - 1),
    decreases pos,
{
    if pos > 0 && !ends_at(t, pos - 1) {
        lemma_sentence_start(t, pos - 1);
    }
}

proof fn lemma_sentence_end(t: Seq<u8>, pos: int)
    requires
        pos <= t.len(),
    ensures
        pos <= sentence_end(t, pos) <= t.len(),
        forall|i: int| pos <= i < sentence_end(t, pos) ==> !#[trigger] ends_at(t, i),
        sentence_end(t, pos) == t.len() || ends_at(t, sentence_end(t, pos)),
    decreases t.len() - pos,
{
    if pos < t.len() && !ends_at(t, pos) {
        lemma_sentence_end(t, pos + 1);
    }
}

/// One of the words stands in the window.
pub open spec fn any_word_in(window: Seq<u8>, ws: Seq<Seq<char>>) -> bool {
    exists|i: int| 0 <= i < ws.len() && occurs(window, encode_utf8(#[trigger] ws[i]))
}

fn stands_within(t: &[u8], needle: &[u8], lo: usize, hi: usize) -> (r: bool)
    requires
        lo <= hi <= t@.len(),
    ensures
        r == occurs(t@.subrange(lo as int, hi as int), needle@),
{
    let ghost w = t@.subrange(lo as int, hi as int);
    proof {
        lemma_first_from(t@, needle@, lo as int);
    }
    match find_bytes(t, needle, lo) {
        Some(p) => {
            if p <= hi && needle.len() <= hi - p {
                assert(w.subrange(p - lo, p - lo + needle@.len()) =~= t@.subrange(
                    p as int,
                    p + needle@.len(),
                ));
                assert(occurs_at(w, needle@, p - lo));
                true
            } else {
                assert forall|i: int| !occurs_at(w, needle@, i) by {
                    if occurs_at(w, needle@, i) {
                        assert(t@.subrange(lo + i, lo + i + needle@.len()) =~= w.subrange(
                            i,
                            i + needle@.len(),
                        ));
                        assert(occurs_at(t@, needle@, lo + i));
                    }
                }
                false
            }
        },
        None => {
            assert forall|i: int| !occurs_at(w, needle@, i) by {
                if occurs_at(w, needle@, i) {
                    assert(t@.subrange(lo + i, lo + i + needle@.len()) =~= w.subrange(
                        i,
                        i + needle@.len(),
                    ));
                    assert(occurs_at(t@, needle@, lo + i));
                }
            }
            false
        },
    }
}

fn any_stands_within(t: &[u8], ws: &Vec<&'static str>, lo: usize, hi: usize) -> (r: bool)
    requires
        lo <= hi <= t@.len(),
    ensures
        r == any_word_in(t@.subrange(lo as int, hi as int), word_views(ws@)),
{
    let ghost w = t@.subrange(lo as int, hi as int);
    let mut i: usize = 0;
    while i < ws.len()
        invariant
            i <= ws@.len(),
            lo <= hi <= t@.len(),
            w == t@.subrange(lo as int, hi as int),
            forall|j: int|
                0 <= j < i ==> !occurs(w, encode_utf8(#[trigger] word_views(ws@)[j])),
        decreases ws.len() - i,
    {
        if stands_within(t, ws[i].as_bytes(), lo, hi) {
            assert(occurs(w, encode_utf8(word_views(ws@)[i as int])));
            return true;
        }
        i += 1;
    }
    false
}

/// The window of two positions: from the beginning of the earlier sentence to the end of the
/// later one.
pub open spec fn window(t: Seq<u8>, pa: int, pb: int) -> Seq<u8> {
    let (la, ha) = (sentence_start(t, pa), sentence_end(t, pa));
    let (lb, hb) = (sentence_start(t, pb), sentence_end(t, pb));
    t.subrange(
        if la <= lb {
            la
        } else {
            lb
        },
        if ha >= hb {
            ha
        } else {
            hb
        },
    )
}

/// A name as it is looked up: trimmed and in lower case.
pub open spec fn folded(name: Seq<char>) -> Seq<char> {
    lowercase(trim(name))
}

/// An ASCII name as it is looked up.
pub open spec fn plainly_folded(name: Seq<char>) -> Seq<char> {
    ascii_lower(trim(name))
}

/// The relation between two names is grounded in the text, which is in lower case.
pub open spec fn grounded(
    text: Seq<char>,
    a: Seq<char>,
    b: Seq<char>,
    rel: Seq<char>,
    type_a: Seq<char>,
    type_b: Seq<char>,
) -> bool {
    names_grounded(text, folded(a), folded(b), rel, type_a, type_b)
}

/// The relation between two folded names is grounded in the text.
pub open spec fn names_grounded(
    text: Seq<char>,
    x: Seq<char>,
    y: Seq<char>,
    rel: Seq<char>,
    type_a: Seq<char>,
    type_b: Seq<char>,
) -> bool {
    let t = encode_utf8(text);
    &&& types_fit(rel, type_a, type_b)
    &&& x.len() > 0 && y.len() > 0 && x != y
    &&& match nearest(t, occurrences_of(t, encode_utf8(x)), occurrences_of(t, encode_utf8(y))) {
        None => false,
        Some((pa, pb)) => match cue_words(rel) {
            None => true,
            Some(ws) => {
                &&& in_one_sentence(rel) ==> sentence_start(t, pa) == sentence_start(t, pb)
                &&& any_word_in(window(t, pa, pb), ws)
            },
        },
    }
}

/// `a` and `b` are the surface forms (any alias that occurs works; pass the one that does).
/// `text_lower` is the lower-cased source text; names are lower-cased here.
pub fn relation_grounded(
    text_lower: &str,
    a: &str,
    b: &str,
    rel: &str,
    type_a: &str,
    type_b: &str,
) -> (r: bool)
    ensures
        r == grounded(text_lower@, a@, b@, rel@, type_a@, type_b@),
        is_ascii_chars(a@) && is_ascii_chars(b@) ==> r == names_grounded(
            text_lower@,
            plainly_folded(a@),
            plainly_folded(b@),
            rel@,
            type_a@,
            type_b@,
        ),
{
    proof {
        lemma_trim_keeps(a@);
        lemma_trim_keeps(b@);
    }
    if !types_ok(rel, type_a, type_b) {
        return false;
    }
    let a = trimmed(a).as_str().to_lowercase();
    let b = trimmed(b).as_str().to_lowercase();
    if a.as_str().is_empty() || b.as_str().is_empty() || str_eq(a.as_str(), b.as_str()) {
        return false;
    }
    let t = text_lower.as_bytes();
    match nearest_pair(t, a.as_str().as_bytes(), b.as_str().as_bytes()) {
        None => false,
        Some((pa, pb)) => match cues(rel) {
            None => true,
            Some(words) => {
                let (la, ha) = sentence_bounds(text_lower, pa);
                let (lb, hb) = sentence_bounds(text_lower, pb);
                if same_sentence_required(rel) && la != lb {
                    return false;
                }
                let lo = if la <= lb {
                    la
                } else {
                    lb
                };
                let hi = if ha >= hb {
                    ha
                } else {
                    hb
                };
                any_stands_within(t, &words, lo, hi)
            },
        },
    }
}

/// Whether the text holds the name, whatever the name's case.
pub open spec fn names_text(text: Seq<char>, name: Seq<char>) -> bool {
    byte_len(name) >= 2 && occurs(encode_utf8(text), encode_utf8(lowercase(name)))
}

fn holds_name(text_lower: &str, name: &str) -> (r: bool)
    ensures
        r == names_text(text_lower@, name@),
{
    if name.as_bytes().len() < 2 {
        return false;
    }
    let t = text_lower.as_bytes();
    assert(t@.subrange(0, t@.len() as int) =~= t@);
    stands_within(t, name.to_lowercase().as_str().as_bytes(), 0, t.len())
}

/// Picks the first of `names` that occurs in the text (for auditing stored edges, where only
/// canonical names and aliases are known, not the original mention).
pub fn occurring_name<'a>(text_lower: &str, names: &[&'a str]) -> (r: Option<&'a str>)
    ensures
        match r {
            Some(n) => exists|i: int|
                0 <= i < names@.len() && n@ == (#[trigger] names@[i])@ && names_text(
                    text_lower@,
                    n@,
                ) && forall|j: int|
                    0 <= j < i ==> !names_text(text_lower@, (#[trigger] names@[j])@),
            None => forall|j: int|
                0 <= j < names@.len() ==> !names_text(text_lower@, (#[trigger] names@[j])@),
        },
{
    let mut i: usize = 0;
    while i < names.len()
        invariant
            i <= names@.len(),
            forall|j: int| 0 <= j < i ==> !names_text(text_lower@, (#[trigger] names@[j])@),
        decreases names.len() - i,
    {
        if holds_name(text_lower, names[i]) {
            assert(names@[i as int]@ == names@[i as int]@);
            return Some(names[i]);
        }
        i += 1;
    }
    None
}

proof fn lemma_occurrences_from(hay: Seq<u8>, needle: Seq<u8>, from: int)
    requires
        0 <= from,
    ensures
        forall|i: int|
            0 <= i < occurrences_from(hay, needle, from).len() ==> occurs_at(
                hay,
                needle,
                #[trigger] occurrences_from(hay, needle, from)[i],
            ),
    decreases hay.len() - from,
{
    lemma_first_from(hay, needle, from);
    if let Some(p) = first_from(hay, needle, from) {
        if !(p + needle.len() >= hay.len() || needle.len() == 0) {
            lemma_occurrences_from(hay, needle, p + needle.len());
            let tail = occurrences_from(hay, needle, p + needle.len());
            let all = occurrences_from(hay, needle, from);
            assert(all == seq![p] + tail);
            assert forall|i: int| 0 <= i < all.len() implies occurs_at(
                hay,
                needle,
                #[trigger] all[i],
            ) by {
                if i > 0 {
                    assert(all[i] == tail[i - 1]);
                }
            }
        }
    }
}

/// What a grounded relation rests on: its two names differ, have at least two bytes and stand in
/// the text, near each other; the entity types make sense for it; and where the relation asks for
/// a cue, one stands in the text.
pub proof fn law_grounded_names_stand_near(
    text: Seq<char>,
    a: Seq<char>,
    b: Seq<char>,
    rel: Seq<char>,
    type_a: Seq<char>,
    type_b: Seq<char>,
)
    requires
        grounded(text, a, b, rel, type_a, type_b),
    ensures
        types_fit(rel, type_a, type_b),
        folded(a) != folded(b),
        byte_len(folded(a)) >= 2,
        byte_len(folded(b)) >= 2,
        exists|pa: int, pb: int|
            #![trigger gap(encode_utf8(text), pa, pb)]
            gap(encode_utf8(text), pa, pb) <= PROXIMITY && occurs_at(
                encode_utf8(text),
                encode_utf8(folded(a)),
                pa,
            ) && occurs_at(encode_utf8(text), encode_utf8(folded(b)), pb),
        cue_words(rel) matches Some(ws) ==> any_word_in(encode_utf8(text), ws),
{
    let t = encode_utf8(text);
    let x = encode_utf8(folded(a));
    let y = encode_utf8(folded(b));
    let oa = occurrences_of(t, x);
    let ob = occurrences_of(t, y);
    lemma_nearest(t, oa, ob);
    lemma_occurrences_from(t, x, 0);
    lemma_occurrences_from(t, y, 0);
    let p = nearest(t, oa, ob)->0;
    assert(oa.contains(p.0) && ob.contains(p.1));
    let i = choose|i: int| 0 <= i < oa.len() && oa[i] == p.0;
    let j = choose|j: int| 0 <= j < ob.len() && ob[j] == p.1;
    assert(occurs_at(t, x, oa[i]));
    assert(occurs_at(t, y, ob[j]));
    assert(gap(t, p.0, p.1) <= PROXIMITY);
    if let Some(ws) = cue_words(rel) {
        law_sentence_bounds(t, p.0);
        law_sentence_bounds(t, p.1);
        let (la, ha) = (sentence_start(t, p.0), sentence_end(t, p.0));
        let (lb, hb) = (sentence_start(t, p.1), sentence_end(t, p.1));
        let lo = if la <= lb {
            la
        } else {
            lb
        };
        let w = window(t, p.0, p.1);
        let k = choose|k: int| 0 <= k < ws.len() && occurs(w, encode_utf8(#[trigger] ws[k]));
        let e = encode_utf8(ws[k]);
        let q = choose|q: int| occurs_at(w, e, q);
        assert(w.subrange(q, q + e.len()) =~= t.subrange(lo + q, lo + q + e.len()));
        assert(occurs_at(t, e, lo + q));
        assert(occurs(t, encode_utf8(ws[k])));
    }
}

/// Names that are folded already are grounded alike: where folding leaves the folded names as
/// they are, they stand for the names.
pub proof fn law_folded_names_are_grounded_alike(
    text: Seq<char>,
    a: Seq<char>,
    b: Seq<char>,
    rel: Seq<char>,
    type_a: Seq<char>,
    type_b: Seq<char>,
)
    requires
        folded(folded(a)) == folded(a),
        folded(folded(b)) == folded(b),
    ensures
        grounded(text, folded(a), folded(b), rel, type_a, type_b) == grounded(
            text,
            a,
            b,
            rel,
            type_a,
            type_b,
        ),
{
}

/// ASCII names that are folded already are grounded alike: folding again changes nothing.
pub proof fn law_plain_names_are_grounded_alike(name: Seq<char>)
    requires
        is_ascii_chars(name),
    ensures
        is_ascii_chars(plainly_folded(name)),
        plainly_folded(plainly_folded(name)) == plainly_folded(name),
{
    let t = trim(name);
    let x = ascii_lower(t);
    lemma_trim_keeps(name);
    assert forall|i: int| 0 <= i < x.len() implies '\0' <= #[trigger] x[i] <= '\u{7f}' by {
        assert('\0' <= t[i] <= '\u{7f}');
    }
    assert forall|i: int| 0 <= i < x.len() implies is_space(#[trigger] x[i]) == is_space(t[i]) by {}
    if x.len() > 0 {
        assert(is_space(x[0]) == is_space(t[0]));
        assert(is_space(x[x.len() - 1]) == is_space(t[t.len() - 1]));
    }
    assert(trim(x) == x);
    assert(ascii_lower(x) =~= x);
}

} // verus!
