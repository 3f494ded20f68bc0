//! Text as sequences of Unicode scalar values.

use vstd::prelude::*;
use vstd::string::*;
use vstd::utf8::*;

verus! {

/// The texts that a list of strings holds.
pub open spec fn views(v: Seq<String>) -> Seq<Seq<char>> {
    Seq::new(v.len(), |i: int| v[i]@)
}

/// `String::push`: appends one scalar value.
pub assume_specification[ String::push ](s: &mut String, c: char)
    ensures
        final(s)@ == old(s)@.push(c),
;

/// The scalar values of `s`.
pub fn chars_of(s: &str) -> (r: Vec<char>)
    ensures
        r@ == s@,
{
    let mut out: Vec<char> = Vec::new();
    for c in it: s.chars()
        invariant
            it.seq() == s@,
            out@ == s@.take(it.index() as int),
    {
        out.push(c);
    }
    proof {
        assert(s@.take(s@.len() as int) =~= s@);
    }
    out
}

/// The string of the scalar values `cs[from..to]`.
pub fn string_from(cs: &Vec<char>, from: usize, to: usize) -> (r: String)
    requires
        from <= to <= cs@.len(),
    ensures
        r@ == cs@.subrange(from as int, to as int),
{
    let mut out = String::new();
    let mut i: usize = from;
    while i < to
        invariant
            from <= i <= to <= cs@.len(),
            out@ == cs@.subrange(from as int, i as int),
        decreases to - i,
    {
        out.push(cs[i]);
        i += 1;
        assert(out@ =~= cs@.subrange(from as int, i as int));
    }
    out
}

/// Whether two texts are equal.
pub fn str_eq(a: &str, b: &str) -> (r: bool)
    ensures
        r == (a@ == b@),
{
    let x = a.as_bytes();
    let y = b.as_bytes();
    proof {
        encode_utf8_decode_utf8(a@);
        encode_utf8_decode_utf8(b@);
    }
    if x.len() != y.len() {
        return false;
    }
    let mut i: usize = 0;
    while i < x.len()
        invariant
            x@ == encode_utf8(a@),
            y@ == encode_utf8(b@),
            x@.len() == y@.len(),
            i <= x@.len(),
            forall|j: int| 0 <= j < i ==> x@[j] == y@[j],
        decreases x.len() - i,
    {
        if x[i] != y[i] {
            return false;
        }
        i += 1;
    }
    assert(x@ =~= y@);
    true
}

// ---------------------------------------------------------------------------------------------
// Character classes

/// The Unicode `White_Space` property.
pub open spec fn is_space(c: char) -> bool {
    ||| '\t' <= c <= '\r'
    ||| c == ' '
    ||| c == '\u{85}'
    ||| c == '\u{a0}'
    ||| c == '\u{1680}'
    ||| '\u{2000}' <= c <= '\u{200a}'
    ||| c == '\u{2028}'
    ||| c == '\u{2029}'
    ||| c == '\u{202f}'
    ||| c == '\u{205f}'
    ||| c == '\u{3000}'
}

pub fn space(c: char) -> (r: bool)
    ensures
        r == is_space(c),
{
    ('\t' <= c && c <= '\r') || c == ' ' || c == '\u{85}' || c == '\u{a0}' || c == '\u{1680}' || (
    '\u{2000}' <= c && c <= '\u{200a}') || c == '\u{2028}' || c == '\u{2029}' || c == '\u{202f}'
        || c == '\u{205f}' || c == '\u{3000}'
}

pub open spec fn is_ascii_digit(c: char) -> bool {
    '0' <= c <= '9'
}

pub fn ascii_digit(c: char) -> (r: bool)
    ensures
        r == is_ascii_digit(c),
{
    '0' <= c && c <= '9'
}

pub open spec fn is_ascii_letter(c: char) -> bool {
    ('a' <= c <= 'z') || ('A' <= c <= 'Z')
}

pub fn ascii_letter(c: char) -> (r: bool)
    ensures
        r == is_ascii_letter(c),
{
    ('a' <= c && c <= 'z') || ('A' <= c && c <= 'Z')
}

/// Whether `c` is alphabetic or numeric, as the Unicode tables of `char::is_alphanumeric` have it.
pub uninterp spec fn alphanumeric(c: char) -> bool;

/// `char::is_alphanumeric`: the Unicode tables decide; within ASCII these are the letters and
/// the digits.
pub assume_specification[ char::is_alphanumeric ](c: char) -> (r: bool)
    ensures
        r == alphanumeric(c),
        c <= '\u{7f}' ==> r == (is_ascii_letter(c) || is_ascii_digit(c)),
;

/// Whether `c` is alphabetic, as the Unicode tables of `char::is_alphabetic` have it.
pub uninterp spec fn alphabetic(c: char) -> bool;

/// `char::is_alphabetic`: the Unicode tables decide; within ASCII these are the letters.
pub assume_specification[ char::is_alphabetic ](c: char) -> (r: bool)
    ensures
        r == alphabetic(c),
        c <= '\u{7f}' ==> r == is_ascii_letter(c),
;

/// Whether `c` is an upper-case letter, as the Unicode tables of `char::is_uppercase` have it.
pub uninterp spec fn uppercase(c: char) -> bool;

/// `char::is_uppercase`: the Unicode tables decide; within ASCII these are `A` to `Z`.
pub assume_specification[ char::is_uppercase ](c: char) -> (r: bool)
    ensures
        r == uppercase(c),
        c <= '\u{7f}' ==> r == ('A' <= c <= 'Z'),
;

// ---------------------------------------------------------------------------------------------
// Case

/// The lower-case form of an ASCII letter; any other scalar value is its own.
pub open spec fn ascii_lower_char(c: char) -> char {
    if 'A' <= c <= 'Z' {
        ((c as u32) + 32) as char
    } else {
        c
    }
}

/// `s` with its ASCII letters in lower case.
pub open spec fn ascii_lower(s: Seq<char>) -> Seq<char> {
    Seq::new(s.len(), |i: int| ascii_lower_char(s[i]))
}

pub fn lower_ascii_char(c: char) -> (r: char)
    ensures
        r == ascii_lower_char(c),
{
    if 'A' <= c && c <= 'Z' {
        (c as u8 + 32) as char
    } else {
        c
    }
}

/// The ASCII lower-case form of a text.
pub fn lower_ascii(cs: &Vec<char>) -> (r: Vec<char>)
    ensures
        r@ == ascii_lower(cs@),
{
    let mut out: Vec<char> = Vec::new();
    let mut i: usize = 0;
    while i < cs.len()
        invariant
            i <= cs@.len(),
            out@.len() == i,
            forall|j: int| 0 <= j < i ==> out@[j] == ascii_lower_char(cs@[j]),
        decreases cs.len() - i,
    {
        out.push(lower_ascii_char(cs[i]));
        i += 1;
    }
    assert(out@ =~= ascii_lower(cs@));
    out
}

/// The lower-case form of a text under the Unicode rules of `str::to_lowercase`.
pub uninterp spec fn lowercase(s: Seq<char>) -> Seq<char>;

/// `str::to_lowercase`: the Unicode lower-case form of the text; of an ASCII text, its ASCII
/// lower-case form.
pub assume_specification[ str::to_lowercase ](s: &str) -> (r: String)
    ensures
        r@ == lowercase(s@),
        is_ascii_chars(s@) ==> r@ == ascii_lower(s@),
;

// ---------------------------------------------------------------------------------------------
// Trimming

/// `s` without its leading white space.
pub open spec fn trim_start(s: Seq<char>) -> Seq<char>
    decreases s.len(),
{
    if s.len() > 0 && is_space(s[0]) {
        trim_start(s.drop_first())
    } else {
        s
    }
}

/// `s` without its trailing white space.
pub open spec fn trim_end(s: Seq<char>) -> Seq<char>
    decreases s.len(),
{
    if s.len() > 0 && is_space(s.last()) {
        trim_end(s.drop_last())
    } else {
        s
    }
}

/// `s` without the white space at its two ends.
pub open spec fn trim(s: Seq<char>) -> Seq<char> {
    trim_end(trim_start(s))
}

proof fn lemma_trim_start_keeps(s: Seq<char>)
    ensures
        trim_start(s).len() <= s.len(),
        trim_start(s) == s.skip(s.len() - trim_start(s).len()),
        trim_start(s).len() > 0 ==> !is_space(trim_start(s)[0]),
    decreases s.len(),
{
    if s.len() > 0 && is_space(s[0]) {
        lemma_trim_start_keeps(s.drop_first());
        let n = trim_start(s).len();
        assert(s.drop_first().skip(s.len() - 1 - n) =~= s.skip(s.len() - n));
    } else {
        assert(s.skip(0) =~= s);
    }
}

proof fn lemma_trim_end_keeps(s: Seq<char>)
    ensures
        trim_end(s).len() <= s.len(),
        trim_end(s) == s.take(trim_end(s).len() as int),
        trim_end(s).len() > 0 ==> !is_space(trim_end(s).last()),
    decreases s.len(),
{
    if s.len() > 0 && is_space(s.last()) {
        lemma_trim_end_keeps(s.drop_last());
        let n = trim_end(s).len() as int;
        assert(s.drop_last().take(n) =~= s.take(n));
    } else {
        assert(s.take(s.len() as int) =~= s);
    }
}

/// Trimming keeps the text to ASCII and leaves no white space at the ends.
pub proof fn lemma_trim_keeps(s: Seq<char>)
    ensures
        is_ascii_chars(s) ==> is_ascii_chars(trim(s)),
        trim(s).len() > 0 ==> !is_space(trim(s)[0]) && !is_space(trim(s).last()),
{
    let t = trim_start(s);
    lemma_trim_start_keeps(s);
    lemma_trim_end_keeps(t);
    if trim(s).len() > 0 {
        assert(trim(s)[0] == t[0]);
    }
    if is_ascii_chars(s) {
        assert forall|i: int| 0 <= i < trim(s).len() implies '\0' <= #[trigger] trim(s)[i]
            <= '\u{7f}' by {
            assert(trim(s)[i] == s[s.len() - t.len() + i]);
        }
    }
}

pub fn sub_chars(cs: &Vec<char>, from: usize, to: usize) -> (r: Vec<char>)
    requires
        from <= to <= cs@.len(),
    ensures
        r@ == cs@.subrange(from as int, to as int),
{
    let mut out: Vec<char> = Vec::new();
    let mut i: usize = from;
    while i < to
        invariant
            from <= i <= to <= cs@.len(),
            out@ == cs@.subrange(from as int, i as int),
        decreases to - i,
    {
        out.push(cs[i]);
        i += 1;
        assert(out@ =~= cs@.subrange(from as int, i as int));
    }
    out
}

pub fn trim_start_chars(cs: &Vec<char>) -> (r: Vec<char>)
    ensures
        r@ == trim_start(cs@),
{
    let mut i: usize = 0;
    assert(cs@.skip(0) =~= cs@);
    while i < cs.len() && space(cs[i])
        invariant
            i <= cs@.len(),
            trim_start(cs@.skip(i as int)) == trim_start(cs@),
        decreases cs.len() - i,
    {
        assert(cs@.skip(i as int).drop_first() =~= cs@.skip(i + 1));
        i += 1;
    }
    let r = sub_chars(cs, i, cs.len());
    assert(r@ =~= cs@.skip(i as int));
    r
}

pub fn trim_end_chars(cs: &Vec<char>) -> (r: Vec<char>)
    ensures
        r@ == trim_end(cs@),
{
    let mut n: usize = cs.len();
    assert(cs@.take(n as int) =~= cs@);
    while n > 0 && space(cs[n - 1])
        invariant
            n <= cs@.len(),
            trim_end(cs@.take(n as int)) == trim_end(cs@),
        decreases n,
    {
        assert(cs@.take(n as int).drop_last() =~= cs@.take(n - 1));
        n -= 1;
    }
    let r = sub_chars(cs, 0, n);
    assert(r@ =~= cs@.take(n as int));
    r
}

/// `str::trim` on a list of scalar values.
pub fn trim_chars(cs: &Vec<char>) -> (r: Vec<char>)
    ensures
        r@ == trim(cs@),
{
    trim_end_chars(&trim_start_chars(cs))
}

pub fn string_of(cs: &Vec<char>) -> (r: String)
    ensures
        r@ == cs@,
{
    let r = string_from(cs, 0, cs.len());
    assert(r@ =~= cs@);
    r
}

/// `s` without the white space at its two ends.
pub fn trimmed(s: &str) -> (r: String)
    ensures
        r@ == trim(s@),
{
    string_of(&trim_chars(&chars_of(s)))
}

// ---------------------------------------------------------------------------------------------
// Splitting and joining

/// The maximal runs of non-space in `cur + s`, where `cur` is the run that `s` continues.
pub open spec fn words_from(cur: Seq<char>, s: Seq<char>) -> Seq<Seq<char>>
    decreases s.len(),
{
    if s.len() == 0 {
        if cur.len() == 0 {
            seq![]
        } else {
            seq![cur]
        }
    } else if !is_space(s[0]) {
        words_from(cur.push(s[0]), s.drop_first())
    } else if cur.len() == 0 {
        words_from(cur, s.drop_first())
    } else {
        seq![cur] + words_from(seq![], s.drop_first())
    }
}

/// The maximal runs of non-space in `s`, in order.
pub open spec fn words(s: Seq<char>) -> Seq<Seq<char>> {
    words_from(seq![], s)
}

/// No scalar value of `s` is white space.
pub open spec fn solid(s: Seq<char>) -> bool {
    forall|i: int| 0 <= i < s.len() ==> !is_space(#[trigger] s[i])
}

proof fn lemma_words_from(cur: Seq<char>, s: Seq<char>)
    requires
        solid(cur),
    ensures
        forall|i: int|
            0 <= i < words_from(cur, s).len() ==> (#[trigger] words_from(cur, s)[i]).len() > 0
                && solid(words_from(cur, s)[i]),
        cur.len() > 0 || !(forall|j: int| 0 <= j < s.len() ==> is_space(#[trigger] s[j]))
            ==> words_from(cur, s).len() > 0,
    decreases s.len(),
{
    if s.len() > 0 {
        let rest = s.drop_first();
        if !is_space(s[0]) {
            lemma_words_from(cur.push(s[0]), rest);
            assert(words_from(cur, s) == words_from(cur.push(s[0]), rest));
        } else {
            assert forall|j: int| 0 <= j < s.len() implies j == 0 || s[j] == rest[j - 1] by {}
            if cur.len() == 0 {
                lemma_words_from(cur, rest);
                assert(words_from(cur, s) == words_from(cur, rest));
                if forall|j: int| 0 <= j < rest.len() ==> is_space(#[trigger] rest[j]) {
                    assert forall|j: int| 0 <= j < s.len() implies is_space(#[trigger] s[j]) by {
                        if j > 0 {
                            assert(is_space(rest[j - 1]));
                        }
                    }
                }
            } else {
                lemma_words_from(seq![], rest);
                let tail = words_from(seq![], rest);
                assert forall|i: int| 0 <= i < words_from(cur, s).len() implies (
                #[trigger] words_from(cur, s)[i]).len() > 0 && solid(words_from(cur, s)[i]) by {
                    assert(words_from(cur, s) == seq![cur] + tail);
                    if i > 0 {
                        assert(words_from(cur, s)[i] == tail[i - 1]);
                    } else {
                        assert(words_from(cur, s)[i] == cur);
                    }
                }
            }
        }
    } else if cur.len() > 0 {
        assert(words_from(cur, s) == seq![cur]);
        assert(seq![cur][0] == cur);
    }
}

/// The words of a text are not empty and hold no white space, and a text that holds anything
/// but white space has a word.
pub proof fn lemma_words(s: Seq<char>)
    ensures
        forall|i: int| 0 <= i < words(s).len() ==> (#[trigger] words(s)[i]).len() > 0 && solid(
            words(s)[i],
        ),
        forall|j: int| 0 <= j < s.len() && !is_space(#[trigger] s[j]) ==> words(s).len() > 0,
{
    lemma_words_from(seq![], s);
}

proof fn lemma_solid_run(cur: Seq<char>, t: Seq<char>)
    requires
        solid(t),
        cur.len() + t.len() > 0,
    ensures
        words_from(cur, t) == seq![cur + t],
    decreases t.len(),
{
    if t.len() == 0 {
        assert(cur + t =~= cur);
    } else {
        lemma_solid_run(cur.push(t[0]), t.drop_first());
        assert(cur.push(t[0]) + t.drop_first() =~= cur + t);
    }
}

proof fn lemma_words_push(cur: Seq<char>, s: Seq<char>, t: Seq<char>)
    requires
        solid(t),
        t.len() > 0,
    ensures
        words_from(cur, s + seq![' '] + t) == words_from(cur, s).push(t),
    decreases s.len(),
{
    let all = s + seq![' '] + t;
    if s.len() == 0 {
        assert(all.drop_first() =~= t);
        lemma_solid_run(seq![], t);
        assert(Seq::<char>::empty() + t =~= t);
        if cur.len() == 0 {
            assert(words_from(cur, s).push(t) =~= seq![t]);
            assert(cur =~= seq![]);
        } else {
            assert(words_from(cur, s).push(t) =~= seq![cur] + seq![t]);
        }
    } else {
        let rest = s.drop_first();
        assert(all.drop_first() =~= rest + seq![' '] + t);
        assert(all[0] == s[0]);
        if !is_space(s[0]) {
            lemma_words_push(cur.push(s[0]), rest, t);
        } else if cur.len() == 0 {
            lemma_words_push(cur, rest, t);
        } else {
            lemma_words_push(seq![], rest, t);
            assert((seq![cur] + words_from(seq![], rest)).push(t) =~= seq![cur] + words_from(
                seq![],
                rest,
            ).push(t));
        }
    }
}

/// The words are not empty and hold no white space.
pub open spec fn are_words(ws: Seq<Seq<char>>) -> bool {
    forall|i: int| 0 <= i < ws.len() ==> (#[trigger] ws[i]).len() > 0 && solid(ws[i])
}

/// Words that are joined by blanks are the words of what comes out.
pub proof fn lemma_words_joined(ws: Seq<Seq<char>>)
    requires
        are_words(ws),
    ensures
        words(joined(ws, " "@)) == ws,
    decreases ws.len(),
{
    reveal_strlit(" ");
    assert(" "@ =~= seq![' ']);
    if ws.len() == 0 {
        assert(ws =~= seq![]);
    } else if ws.len() == 1 {
        lemma_solid_run(seq![], ws[0]);
        assert(Seq::<char>::empty() + ws[0] =~= ws[0]);
        assert(seq![ws[0]] =~= ws);
    } else {
        let most = ws.drop_last();
        lemma_words_joined(most);
        lemma_words_push(seq![], joined(most, " "@), ws.last());
        assert(most.push(ws.last()) =~= ws);
    }
}

proof fn lemma_words_keep(cur: Seq<char>, s: Seq<char>, p: spec_fn(char) -> bool)
    requires
        forall|i: int| 0 <= i < cur.len() ==> p(#[trigger] cur[i]),
        forall|i: int| 0 <= i < s.len() ==> p(#[trigger] s[i]),
    ensures
        forall|k: int, i: int|
            0 <= k < words_from(cur, s).len() && 0 <= i < words_from(cur, s)[k].len() ==> p(
                #[trigger] words_from(cur, s)[k][i],
            ),
    decreases s.len(),
{
    if s.len() > 0 {
        let rest = s.drop_first();
        assert forall|i: int| 0 <= i < rest.len() implies p(#[trigger] rest[i]) by {
            assert(rest[i] == s[i + 1]);
        }
        if !is_space(s[0]) {
            let next = cur.push(s[0]);
            assert forall|i: int| 0 <= i < next.len() implies p(#[trigger] next[i]) by {
                if i < cur.len() {
                    assert(next[i] == cur[i]);
                }
            }
            lemma_words_keep(next, rest, p);
            assert(words_from(cur, s) == words_from(next, rest));
        } else if cur.len() == 0 {
            lemma_words_keep(cur, rest, p);
            assert(words_from(cur, s) == words_from(cur, rest));
        } else {
            let none = Seq::<char>::empty();
            lemma_words_keep(none, rest, p);
            let (all, tail) = (words_from(cur, s), words_from(none, rest));
            assert(all == seq![cur] + tail);
            assert forall|k: int, i: int| 0 <= k < all.len() && 0 <= i < all[k].len() implies p(
                #[trigger] all[k][i],
            ) by {
                if k > 0 {
                    assert(all[k] == tail[k - 1]);
                    assert(p(tail[k - 1][i]));
                } else {
                    assert(all[k] == cur);
                }
            }
        }
    } else if cur.len() > 0 {
        let all = words_from(cur, s);
        assert(all == seq![cur]);
        assert forall|k: int, i: int| 0 <= k < all.len() && 0 <= i < all[k].len() implies p(
            #[trigger] all[k][i],
        ) by {
            assert(all[k] == cur);
        }
    }
}

/// One blank stands between each two words, and none at the ends.
pub open spec fn single_spaced(n: Seq<char>) -> bool {
    &&& n.len() > 0 ==> n[0] != ' ' && n.last() != ' '
    &&& forall|i: int| 0 <= i < n.len() - 1 && #[trigger] n[i] == ' ' ==> n[i + 1] != ' '
}

proof fn lemma_single_spaced(ws: Seq<Seq<char>>)
    requires
        are_words(ws),
    ensures
        single_spaced(joined(ws, " "@)),
        ws.len() > 0 ==> joined(ws, " "@).len() > 0,
    decreases ws.len(),
{
    reveal_strlit(" ");
    assert(" "@ =~= seq![' ']);
    if ws.len() == 1 {
        assert(ws[0].len() > 0 && solid(ws[0]));
        assert(!is_space(ws[0][0]) && !is_space(ws[0].last()));
        assert forall|i: int| 0 <= i < ws[0].len() implies #[trigger] ws[0][i] != ' ' by {
            assert(!is_space(ws[0][i]));
        }
    } else if ws.len() > 1 {
        let most = ws.drop_last();
        lemma_single_spaced(most);
        let (a, b) = (joined(most, " "@), ws.last());
        let n = joined(ws, " "@);
        assert(b == ws[ws.len() - 1]);
        assert(n == a + seq![' '] + b);
        assert forall|i: int| 0 <= i < b.len() implies #[trigger] b[i] != ' ' by {
            assert(!is_space(b[i]));
        }
        assert(n[0] == a[0]);
        assert(n.last() == b.last());
        assert forall|i: int| 0 <= i < n.len() - 1 && #[trigger] n[i] == ' ' implies n[i + 1]
            != ' ' by {
            if i < a.len() - 1 {
                assert(a[i] == n[i] && a[i + 1] == n[i + 1]);
            } else if i == a.len() - 1 {
                assert(a.last() == n[i]);
            } else if i == a.len() {
                assert(n[i + 1] == b[0]);
            } else {
                assert(n[i] == b[i - a.len() - 1]);
            }
        }
    }
}

proof fn lemma_joined_keeps(ws: Seq<Seq<char>>, p: spec_fn(char) -> bool)
    requires
        p(' '),
        forall|k: int, i: int|
            0 <= k < ws.len() && 0 <= i < ws[k].len() ==> p(#[trigger] ws[k][i]),
    ensures
        forall|i: int| 0 <= i < joined(ws, " "@).len() ==> p(#[trigger] joined(ws, " "@)[i]),
    decreases ws.len(),
{
    reveal_strlit(" ");
    assert(" "@ =~= seq![' ']);
    if ws.len() == 1 {
        assert forall|i: int| 0 <= i < ws[0].len() implies p(#[trigger] ws[0][i]) by {}
    } else if ws.len() > 1 {
        let most = ws.drop_last();
        assert forall|k: int, i: int| 0 <= k < most.len() && 0 <= i < most[k].len() implies p(
            #[trigger] most[k][i],
        ) by {
            assert(most[k] == ws[k]);
        }
        lemma_joined_keeps(most, p);
        let (a, b) = (joined(most, " "@), ws.last());
        let n = joined(ws, " "@);
        assert(n == a + seq![' '] + b);
        assert forall|i: int| 0 <= i < n.len() implies p(#[trigger] n[i]) by {
            if i < a.len() {
                assert(n[i] == a[i]);
            } else if i > a.len() {
                assert(n[i] == ws[ws.len() - 1][i - a.len() - 1]);
            }
        }
    }
}

/// The words of a text, one blank apart: the same words, blanks only between them, and only the
/// scalar values that the text holds.
pub proof fn lemma_respaced(s: Seq<char>, p: spec_fn(char) -> bool)
    requires
        p(' '),
        forall|i: int| 0 <= i < s.len() ==> p(#[trigger] s[i]),
    ensures
        ({
            let n = joined(words(s), " "@);
            &&& words(n) == words(s)
            &&& single_spaced(n)
            &&& forall|i: int| 0 <= i < n.len() ==> p(#[trigger] n[i])
        }),
{
    lemma_words(s);
    lemma_words_joined(words(s));
    lemma_single_spaced(words(s));
    lemma_words_keep(seq![], s, p);
    lemma_joined_keeps(words(s), p);
}

/// `str::split_whitespace` on a list of scalar values.
pub fn split_words(cs: &Vec<char>) -> (r: Vec<String>)
    ensures
        views(r@) == words(cs@),
{
    let mut out: Vec<String> = Vec::new();
    let mut cur = String::new();
    let mut empty = true;
    let mut i: usize = 0;
    assert(cs@.skip(0) =~= cs@);
    assert(cur@ =~= Seq::<char>::empty());
    assert(views(out@) + words_from(cur@, cs@) =~= words(cs@));
    while i < cs.len()
        invariant
            i <= cs@.len(),
            empty == (cur@.len() == 0),
            views(out@) + words_from(cur@, cs@.skip(i as int)) == words(cs@),
        decreases cs.len() - i,
    {
        let c = cs[i];
        let ghost before = views(out@);
        let ghost run = cur@;
        let ghost rest = cs@.skip(i as int);
        assert(rest.drop_first() =~= cs@.skip(i + 1));
        if !space(c) {
            cur.push(c);
            empty = false;
        } else if !empty {
            out.push(cur);
            cur = String::new();
            empty = true;
            proof {
                assert(views(out@) =~= before.push(run));
                assert(cur@ =~= Seq::<char>::empty());
                assert(before + (seq![run] + words_from(seq![], cs@.skip(i + 1))) =~= before.push(
                    run,
                ) + words_from(seq![], cs@.skip(i + 1)));
            }
        }
        i += 1;
    }
    let ghost before = views(out@);
    let ghost run = cur@;
    if !empty {
        out.push(cur);
        assert(views(out@) =~= before + seq![run]);
    }
    assert(views(out@) =~= words(cs@));
    out
}

/// The pieces of `cur + s` between the occurrences of `sep` in `s`.
pub open spec fn pieces_from(cur: Seq<char>, s: Seq<char>, sep: char) -> Seq<Seq<char>>
    decreases s.len(),
{
    if s.len() == 0 {
        seq![cur]
    } else if s[0] == sep {
        seq![cur] + pieces_from(seq![], s.drop_first(), sep)
    } else {
        pieces_from(cur.push(s[0]), s.drop_first(), sep)
    }
}

/// The pieces of `s` between the occurrences of `sep`, empty ones included.
pub open spec fn pieces(s: Seq<char>, sep: char) -> Seq<Seq<char>> {
    pieces_from(seq![], s, sep)
}

/// `str::split` at one scalar value.
pub fn split_at_char(cs: &Vec<char>, sep: char) -> (r: Vec<String>)
    ensures
        views(r@) == pieces(cs@, sep),
        r@.len() >= 1,
{
    let mut out: Vec<String> = Vec::new();
    let mut cur = String::new();
    let mut i: usize = 0;
    assert(cs@.skip(0) =~= cs@);
    assert(cur@ =~= Seq::<char>::empty());
    assert(views(out@) + pieces_from(cur@, cs@, sep) =~= pieces(cs@, sep));
    while i < cs.len()
        invariant
            i <= cs@.len(),
            views(out@) + pieces_from(cur@, cs@.skip(i as int), sep) == pieces(cs@, sep),
        decreases cs.len() - i,
    {
        let c = cs[i];
        let ghost before = views(out@);
        let ghost run = cur@;
        let ghost rest = cs@.skip(i as int);
        assert(rest.drop_first() =~= cs@.skip(i + 1));
        if c == sep {
            out.push(cur);
            cur = String::new();
            proof {
                assert(views(out@) =~= before.push(run));
                assert(cur@ =~= Seq::<char>::empty());
                assert(before + (seq![run] + pieces_from(seq![], cs@.skip(i + 1), sep))
                    =~= before.push(run) + pieces_from(seq![], cs@.skip(i + 1), sep));
            }
        } else {
            cur.push(c);
        }
        i += 1;
    }
    let ghost before = views(out@);
    let ghost run = cur@;
    out.push(cur);
    assert(views(out@) =~= before + seq![run]);
    out
}

/// The texts in order with `sep` between each two.
pub open spec fn joined(parts: Seq<Seq<char>>, sep: Seq<char>) -> Seq<char>
    decreases parts.len(),
{
    if parts.len() == 0 {
        seq![]
    } else if parts.len() == 1 {
        parts[0]
    } else {
        joined(parts.drop_last(), sep) + sep + parts.last()
    }
}

/// Joined texts begin with the first of them.
pub proof fn lemma_joined_begins(parts: Seq<Seq<char>>, sep: Seq<char>)
    requires
        parts.len() > 0,
    ensures
        joined(parts, sep).len() >= parts[0].len(),
        joined(parts, sep).take(parts[0].len() as int) == parts[0],
    decreases parts.len(),
{
    if parts.len() == 1 {
        assert(parts[0].take(parts[0].len() as int) =~= parts[0]);
    } else {
        lemma_joined_begins(parts.drop_last(), sep);
        let j = joined(parts.drop_last(), sep);
        assert(joined(parts, sep).take(parts[0].len() as int) =~= j.take(parts[0].len() as int));
    }
}

/// `[String]::join`.
pub fn join(parts: &Vec<String>, sep: &str) -> (r: String)
    ensures
        r@ == joined(views(parts@), sep@),
{
    let mut out = String::new();
    let mut i: usize = 0;
    assert(views(parts@).take(0) =~= seq![]);
    assert(out@ =~= joined(views(parts@).take(0), sep@));
    while i < parts.len()
        invariant
            i <= parts@.len(),
            out@ == joined(views(parts@).take(i as int), sep@),
        decreases parts.len() - i,
    {
        let ghost prev = out@;
        let ghost upto = views(parts@).take(i + 1);
        assert(upto.drop_last() =~= views(parts@).take(i as int));
        if i > 0 {
            out.append(sep);
        }
        out.append(parts[i].as_str());
        proof {
            if i == 0 {
                assert(out@ =~= upto[0]);
            }
        }
        i += 1;
    }
    assert(views(parts@).take(i as int) =~= views(parts@));
    out
}

// ---------------------------------------------------------------------------------------------
// Searching

/// `needle` stands in `hay` from position `i` on.
pub open spec fn occurs_at<T>(hay: Seq<T>, needle: Seq<T>, i: int) -> bool {
    0 <= i && i + needle.len() <= hay.len() && hay.subrange(i, i + needle.len()) == needle
}

/// `needle` stands somewhere in `hay`.
pub open spec fn occurs<T>(hay: Seq<T>, needle: Seq<T>) -> bool {
    exists|i: int| occurs_at(hay, needle, i)
}

/// The first position from `i` on at which `needle` stands in `hay`.
pub open spec fn first_from<T>(hay: Seq<T>, needle: Seq<T>, i: int) -> Option<int>
    decreases hay.len() - i + 1,
{
    if i < 0 || i + needle.len() > hay.len() {
        None
    } else if occurs_at(hay, needle, i) {
        Some(i)
    } else {
        first_from(hay, needle, i + 1)
    }
}

pub proof fn lemma_first_from<T>(hay: Seq<T>, needle: Seq<T>, i: int)
    requires
        0 <= i,
    ensures
        match first_from(hay, needle, i) {
            Some(p) => i <= p && occurs_at(hay, needle, p) && forall|j: int|
                i <= j < p ==> !occurs_at(hay, needle, j),
            None => forall|j: int| i <= j ==> !occurs_at(hay, needle, j),
        },
    decreases hay.len() - i + 1,
{
    if i + needle.len() <= hay.len() && !occurs_at(hay, needle, i) {
        lemma_first_from(hay, needle, i + 1);
    }
}

pub proof fn lemma_first_is<T>(hay: Seq<T>, needle: Seq<T>, i: int, p: int)
    requires
        0 <= i <= p,
        occurs_at(hay, needle, p),
        forall|j: int| i <= j < p ==> !occurs_at(hay, needle, j),
    ensures
        first_from(hay, needle, i) == Some(p),
    decreases p - i,
{
    if i < p {
        lemma_first_is(hay, needle, i + 1, p);
    }
}

pub fn chars_at(hay: &Vec<char>, needle: &Vec<char>, i: usize) -> (r: bool)
    requires
        i <= hay@.len(),
    ensures
        r == occurs_at(hay@, needle@, i as int),
{
    if needle.len() > hay.len() - i {
        return false;
    }
    let mut j: usize = 0;
    while j < needle.len()
        invariant
            j <= needle@.len(),
            i + needle.len() <= hay.len(),
            forall|k: int| 0 <= k < j ==> hay@[i + k] == needle@[k],
        decreases needle.len() - j,
    {
        if hay[i + j] != needle[j] {
            assert(hay@.subrange(i as int, i + needle@.len())[j as int] != needle@[j as int]);
            return false;
        }
        j += 1;
    }
    assert(hay@.subrange(i as int, i + needle@.len()) =~= needle@);
    true
}

/// `str::find` from position `from` on, over scalar values.
pub fn find_chars(hay: &Vec<char>, needle: &Vec<char>, from: usize) -> (r: Option<usize>)
    requires
        from <= hay@.len(),
    ensures
        match r {
            Some(p) => first_from(hay@, needle@, from as int) == Some(p as int) && p
                + needle@.len() <= hay@.len(),
            None => first_from(hay@, needle@, from as int) is None,
        },
{
    if needle.len() > hay.len() {
        return None;
    }
    let last: usize = hay.len() - needle.len();
    let mut i: usize = from;
    while i <= last
        invariant
            from <= i <= hay@.len(),
            last == hay@.len() - needle@.len(),
            first_from(hay@, needle@, from as int) == first_from(hay@, needle@, i as int),
        decreases hay@.len() - i,
    {
        if chars_at(hay, needle, i) {
            return Some(i);
        }
        if i == last {
            assert(first_from(hay@, needle@, i + 1) is None);
            return None;
        }
        i += 1;
    }
    None
}

pub fn bytes_at(hay: &[u8], needle: &[u8], i: usize) -> (r: bool)
    requires
        i <= hay@.len(),
    ensures
        r == occurs_at(hay@, needle@, i as int),
{
    if needle.len() > hay.len() - i {
        return false;
    }
    let mut j: usize = 0;
    while j < needle.len()
        invariant
            j <= needle@.len(),
            i + needle.len() <= hay.len(),
            forall|k: int| 0 <= k < j ==> hay@[i + k] == needle@[k],
        decreases needle.len() - j,
    {
        if hay[i + j] != needle[j] {
            assert(hay@.subrange(i as int, i + needle@.len())[j as int] != needle@[j as int]);
            return false;
        }
        j += 1;
    }
    assert(hay@.subrange(i as int, i + needle@.len()) =~= needle@);
    true
}

/// `str::find` from byte `from` on: a well-formed needle stands at scalar boundaries only, so
/// the search may go byte by byte.
pub fn find_bytes(hay: &[u8], needle: &[u8], from: usize) -> (r: Option<usize>)
    requires
        from <= hay@.len(),
    ensures
        match r {
            Some(p) => first_from(hay@, needle@, from as int) == Some(p as int) && p
                + needle@.len() <= hay@.len(),
            None => first_from(hay@, needle@, from as int) is None,
        },
{
    if needle.len() > hay.len() {
        return None;
    }
    let last: usize = hay.len() - needle.len();
    let mut i: usize = from;
    while i <= last
        invariant
            from <= i <= hay@.len(),
            last == hay@.len() - needle@.len(),
            first_from(hay@, needle@, from as int) == first_from(hay@, needle@, i as int),
        decreases hay@.len() - i,
    {
        if bytes_at(hay, needle, i) {
            return Some(i);
        }
        if i == last {
            assert(first_from(hay@, needle@, i + 1) is None);
            return None;
        }
        i += 1;
    }
    None
}

/// `s` with each occurrence of `from`, taken from the left, replaced by `to`.
pub open spec fn replaced(s: Seq<char>, from: Seq<char>, to: Seq<char>) -> Seq<char>
    decreases s.len(),
{
    if from.len() == 0 || s.len() < from.len() {
        s
    } else if occurs_at(s, from, 0) {
        to + replaced(s.skip(from.len() as int), from, to)
    } else {
        seq![s[0]] + replaced(s.drop_first(), from, to)
    }
}

/// `str::replace`.
pub fn replace_chars(cs: &Vec<char>, from: &str, to: &str) -> (r: Vec<char>)
    requires
        from@.len() > 0,
    ensures
        r@ == replaced(cs@, from@, to@),
{
    let f = chars_of(from);
    let t = chars_of(to);
    let mut out: Vec<char> = Vec::new();
    let mut i: usize = 0;
    assert(cs@.skip(0) =~= cs@);
    assert(out@ + replaced(cs@, from@, to@) =~= replaced(cs@, from@, to@));
    while i < cs.len()
        invariant
            i <= cs@.len(),
            f@ == from@,
            t@ == to@,
            f@.len() > 0,
            out@ + replaced(cs@.skip(i as int), from@, to@) == replaced(cs@, from@, to@),
        decreases cs.len() - i,
    {
        let ghost rest = cs@.skip(i as int);
        let ghost done = out@;
        if chars_at(cs, &f, i) {
            assert(rest.subrange(0, f@.len() as int) =~= cs@.subrange(i as int, i + f@.len()));
            assert(rest.skip(f@.len() as int) =~= cs@.skip(i + f@.len()));
            let mut j: usize = 0;
            while j < t.len()
                invariant
                    j <= t@.len(),
                    out@ == done + t@.take(j as int),
                decreases t.len() - j,
            {
                out.push(t[j]);
                assert(done + t@.take(j + 1) =~= (done + t@.take(j as int)).push(t@[j as int]));
                j += 1;
            }
            assert(t@.take(j as int) =~= t@);
            assert(done + (to@ + replaced(cs@.skip(i + f@.len()), from@, to@)) =~= out@ + replaced(
                cs@.skip(i + f@.len()),
                from@,
                to@,
            ));
            i += f.len();
        } else {
            proof {
                if rest.len() >= f@.len() {
                    assert(rest.subrange(0, f@.len() as int) =~= cs@.subrange(
                        i as int,
                        i + f@.len(),
                    ));
                    assert(!occurs_at(rest, from@, 0));
                } else if rest.len() > 0 {
                    assert(replaced(rest, from@, to@) == rest);
                    assert(replaced(rest.drop_first(), from@, to@) == rest.drop_first());
                    assert(rest =~= seq![rest[0]] + rest.drop_first());
                }
                assert(rest.drop_first() =~= cs@.skip(i + 1));
            }
            out.push(cs[i]);
            assert(done + (seq![rest[0]] + replaced(cs@.skip(i + 1), from@, to@)) =~= out@
                + replaced(cs@.skip(i + 1), from@, to@));
            i += 1;
        }
    }
    assert(cs@.skip(i as int) =~= seq![]);
    assert(out@ =~= replaced(cs@, from@, to@));
    out
}

// ---------------------------------------------------------------------------------------------
// Order

/// The order of texts: scalar by scalar, a prefix before what it begins.
pub open spec fn before(a: Seq<char>, b: Seq<char>) -> bool
    decreases a.len(),
{
    if b.len() == 0 {
        false
    } else if a.len() == 0 {
        true
    } else if a[0] != b[0] {
        a[0] < b[0]
    } else {
        before(a.drop_first(), b.drop_first())
    }
}

pub proof fn lemma_before_irreflexive(a: Seq<char>)
    ensures
        !before(a, a),
    decreases a.len(),
{
    if a.len() > 0 {
        lemma_before_irreflexive(a.drop_first());
    }
}

pub proof fn lemma_before_transitive(a: Seq<char>, b: Seq<char>, c: Seq<char>)
    requires
        before(a, b),
        before(b, c),
    ensures
        before(a, c),
    decreases a.len(),
{
    if a.len() > 0 && b.len() > 0 && c.len() > 0 && a[0] == b[0] && b[0] == c[0] {
        lemma_before_transitive(a.drop_first(), b.drop_first(), c.drop_first());
    }
}

pub proof fn lemma_before_total(a: Seq<char>, b: Seq<char>)
    ensures
        before(a, b) || a == b || before(b, a),
    decreases a.len(),
{
    if a.len() == 0 && b.len() == 0 {
        assert(a =~= b);
    } else if a.len() > 0 && b.len() > 0 && a[0] == b[0] {
        lemma_before_total(a.drop_first(), b.drop_first());
        if a.drop_first() == b.drop_first() {
            assert(a =~= seq![a[0]] + a.drop_first());
            assert(b =~= seq![b[0]] + b.drop_first());
        }
    }
}

/// The `<` of `str`: the byte order of UTF-8 is the order of scalar values.
pub fn str_before(a: &str, b: &str) -> (r: bool)
    ensures
        r == before(a@, b@),
{
    let x = chars_of(a);
    let y = chars_of(b);
    let mut i: usize = 0;
    assert(x@.skip(0) =~= x@);
    assert(y@.skip(0) =~= y@);
    while i < x.len() && i < y.len()
        invariant
            x@ == a@,
            y@ == b@,
            i <= x@.len(),
            i <= y@.len(),
            before(x@, y@) == before(x@.skip(i as int), y@.skip(i as int)),
        decreases x.len() - i,
    {
        if x[i] != y[i] {
            return x[i] < y[i];
        }
        assert(x@.skip(i as int).drop_first() =~= x@.skip(i + 1));
        assert(y@.skip(i as int).drop_first() =~= y@.skip(i + 1));
        i += 1;
    }
    i < y.len()
}

// ---------------------------------------------------------------------------------------------
// Numbers

/// The decimal digit of a number below ten.
pub open spec fn digit(d: int) -> char {
    (('0' as u32) + d) as char
}

/// The decimal numeral of `n`.
pub open spec fn decimal(n: nat) -> Seq<char>
    decreases n,
{
    if n < 10 {
        seq![digit(n as int)]
    } else {
        decimal(n / 10).push(digit((n % 10) as int))
    }
}

/// The decimal numeral of `n`, signed.
pub open spec fn signed_decimal(n: int) -> Seq<char> {
    if n < 0 {
        "-"@ + decimal((-n) as nat)
    } else {
        decimal(n as nat)
    }
}

pub fn decimal_of(n: u64) -> (r: String)
    ensures
        r@ == decimal(n as nat),
    decreases n,
{
    let d = (n % 10) as u8;
    let c = (48 + d) as char;
    assert(c == digit((n % 10) as int));
    if n < 10 {
        let mut s = String::new();
        s.push(c);
        assert(s@ =~= seq![c]);
        s
    } else {
        let mut s = decimal_of(n / 10);
        s.push(c);
        s
    }
}

pub fn signed_decimal_of(n: i64) -> (r: String)
    ensures
        r@ == signed_decimal(n as int),
{
    if n < 0 {
        let m: u64 = if n == i64::MIN {
            9223372036854775808
        } else {
            (-n) as u64
        };
        let mut s = "-".to_owned();
        s.append(decimal_of(m).as_str());
        s
    } else {
        decimal_of(n as u64)
    }
}

// ---------------------------------------------------------------------------------------------
// Lists of strings

/// Whether `list` holds the text `s`.
pub fn list_has(list: &Vec<String>, s: &str) -> (r: bool)
    ensures
        r == views(list@).contains(s@),
{
    let mut i: usize = 0;
    while i < list.len()
        invariant
            i <= list@.len(),
            forall|j: int| 0 <= j < i ==> list@[j]@ != s@,
        decreases list.len() - i,
    {
        if str_eq(list[i].as_str(), s) {
            assert(views(list@)[i as int] == s@);
            return true;
        }
        i += 1;
    }
    assert forall|j: int| 0 <= j < views(list@).len() implies views(list@)[j] != s@ by {}
    false
}

/// What an optional string holds.
pub open spec fn opt_view(o: Option<String>) -> Option<Seq<char>> {
    match o {
        Some(s) => Some(s@),
        None => None,
    }
}

/// What an optional borrowed string holds.
pub open spec fn opt_str(o: Option<&str>) -> Option<Seq<char>> {
    match o {
        Some(s) => Some(s@),
        None => None,
    }
}

pub fn opt_copy(o: &Option<String>) -> (r: Option<String>)
    ensures
        r == *o,
{
    match o {
        Some(s) => Some(s.clone()),
        None => None,
    }
}

pub fn opt_owned(o: Option<&str>) -> (r: Option<String>)
    ensures
        opt_view(r) == opt_str(o),
{
    match o {
        Some(s) => Some(s.to_owned()),
        None => None,
    }
}

pub fn list_copy(v: &Vec<String>) -> (r: Vec<String>)
    ensures
        r@ == v@,
{
    let mut out: Vec<String> = Vec::new();
    let mut i: usize = 0;
    while i < v.len()
        invariant
            i <= v@.len(),
            out@ == v@.take(i as int),
        decreases v.len() - i,
    {
        out.push(v[i].clone());
        i += 1;
        assert(out@ =~= v@.take(i as int));
    }
    assert(out@ =~= v@);
    out
}

// ---------------------------------------------------------------------------------------------
// Bytes

/// The number of bytes of a scalar value in UTF-8.
pub open spec fn utf8_len(c: char) -> int {
    if c <= '\u{7f}' {
        1
    } else if c <= '\u{7ff}' {
        2
    } else if c <= '\u{ffff}' {
        3
    } else {
        4
    }
}

pub fn width(c: char) -> (r: usize)
    ensures
        r == utf8_len(c),
        1 <= r <= 4,
{
    if c <= '\u{7f}' {
        1
    } else if c <= '\u{7ff}' {
        2
    } else if c <= '\u{ffff}' {
        3
    } else {
        4
    }
}

/// The beginning of `s` that takes `n` bytes in UTF-8; nothing where `s` is shorter or a scalar
/// value reaches across.
pub open spec fn head(s: Seq<char>, n: int) -> Option<Seq<char>>
    decreases s.len(),
{
    if n == 0 {
        Some(seq![])
    } else if s.len() == 0 || utf8_len(s[0]) > n {
        None
    } else {
        match head(s.drop_first(), n - utf8_len(s[0])) {
            Some(t) => Some(seq![s[0]] + t),
            None => None,
        }
    }
}

/// The beginning of `s` that takes `n` bytes, or all of it where there is none.
pub open spec fn short_form(s: Seq<char>, n: int) -> Seq<char> {
    match head(s, n) {
        Some(t) => t,
        None => s,
    }
}

/// `str::get` up to byte `n`.
pub fn head_of(s: &str, n: usize) -> (r: Option<String>)
    ensures
        opt_view(r) == head(s@, n as int),
{
    let cs = chars_of(s);
    let mut out = String::new();
    let mut left: usize = n;
    let mut i: usize = 0;
    assert(cs@.skip(0) =~= cs@);
    assert(out@ =~= seq![]);
    proof {
        if let Some(t) = head(cs@, n as int) {
            assert(out@ + t =~= t);
        }
    }
    while left > 0
        invariant
            i <= cs@.len(),
            cs@ == s@,
            head(s@, n as int) == match head(cs@.skip(i as int), left as int) {
                Some(t) => Some(out@ + t),
                None => None,
            },
        decreases left,
    {
        if i == cs.len() {
            return None;
        }
        let c = cs[i];
        let w = width(c);
        if w > left {
            return None;
        }
        let ghost done = out@;
        proof {
            assert(cs@.skip(i as int)[0] == c);
            assert(cs@.skip(i as int).drop_first() =~= cs@.skip(i + 1));
            if let Some(t) = head(cs@.skip(i + 1), left - w) {
                assert(done + (seq![c] + t) =~= done.push(c) + t);
            }
        }
        out.push(c);
        left -= w;
        i += 1;
    }
    assert(out@ + Seq::<char>::empty() =~= out@);
    Some(out)
}

/// The beginning of `s` that takes `n` bytes, or all of it.
pub fn shorten(s: &str, n: usize) -> (r: String)
    ensures
        r@ == short_form(s@, n as int),
{
    match head_of(s, n) {
        Some(t) => t,
        None => s.to_owned(),
    }
}

// ---------------------------------------------------------------------------------------------
// Quoting

/// The text as the `Debug` form of a string shows it: in quotation marks, escaped.
pub uninterp spec fn quoted(s: Seq<char>) -> Seq<char>;

/// The `Debug` form of a `str`, through `format!`: a function of the text.
#[verifier::external_body]
pub(crate) fn quote(s: &str) -> (r: String)
    ensures
        r@ == quoted(s@),
{
    format!("{:?}", s)
}

/// Texts, one directly behind the other.
pub open spec fn flat(parts: Seq<Seq<char>>) -> Seq<char>
    decreases parts.len(),
{
    if parts.len() == 0 {
        seq![]
    } else {
        flat(parts.drop_last()) + parts.last()
    }
}

pub fn flatten(parts: &Vec<String>) -> (r: String)
    ensures
        r@ == flat(views(parts@)),
{
    let ghost all = views(parts@);
    let mut out = String::new();
    let mut i: usize = 0;
    assert(all.take(0) =~= seq![]);
    assert(out@ =~= seq![]);
    while i < parts.len()
        invariant
            i <= parts@.len(),
            all == views(parts@),
            out@ == flat(all.take(i as int)),
        decreases parts.len() - i,
    {
        assert(all.take(i + 1).drop_last() =~= all.take(i as int));
        assert(all.take(i + 1).last() == parts@[i as int]@);
        out.append(parts[i].as_str());
        i += 1;
    }
    assert(all.take(i as int) =~= all);
    out
}

// ---------------------------------------------------------------------------------------------
// Lines and numbers

/// A text without a carriage return at its end.
pub open spec fn without_return(s: Seq<char>) -> Seq<char> {
    if s.len() > 0 && s.last() == '\r' {
        s.drop_last()
    } else {
        s
    }
}

/// The lines of a text, as `str::lines` gives them: a carriage return before a line feed belongs
/// to the line's end, and nothing follows the last line feed.
pub open spec fn lines(s: Seq<char>) -> Seq<Seq<char>> {
    let ps = pieces(s, '\n');
    let ended = Seq::new((ps.len() - 1) as nat, |i: int| without_return(ps[i]));
    if ps.last().len() == 0 {
        ended
    } else {
        ended.push(ps.last())
    }
}

pub fn split_lines(s: &str) -> (r: Vec<String>)
    ensures
        views(r@) == lines(s@),
{
    let ps = split_at_char(&chars_of(s), '\n');
    let ghost pv = views(ps@);
    let last: usize = ps.len() - 1;
    let mut out: Vec<String> = Vec::new();
    let mut i: usize = 0;
    while i < last
        invariant
            i <= last,
            last == ps@.len() - 1,
            pv == views(ps@),
            out@.len() == i,
            forall|j: int| 0 <= j < i ==> (#[trigger] out@[j])@ == without_return(pv[j]),
        decreases last - i,
    {
        let cs = chars_of(ps[i].as_str());
        let n: usize = cs.len();
        if n > 0 && cs[n - 1] == '\r' {
            let line = string_from(&cs, 0, n - 1);
            assert(line@ =~= cs@.drop_last());
            out.push(line);
        } else {
            out.push(ps[i].clone());
        }
        i += 1;
    }
    let ghost ended = Seq::new((pv.len() - 1) as nat, |i: int| without_return(pv[i]));
    assert(views(out@) =~= ended);
    if !ps[last].as_str().is_empty() {
        out.push(ps[last].clone());
        assert(views(out@) =~= ended.push(pv.last()));
    }
    out
}

/// The number that a row of digits stands for.
pub open spec fn digits_value(s: Seq<char>) -> int
    decreases s.len(),
{
    if s.len() == 0 {
        0
    } else {
        digits_value(s.drop_last()) * 10 + (s.last() as int - '0' as int)
    }
}

/// The text is a row of digits.
pub open spec fn is_digits(s: Seq<char>) -> bool {
    s.len() > 0 && forall|i: int| 0 <= i < s.len() ==> is_ascii_digit(#[trigger] s[i])
}

/// The number that a text stands for, as `i64::from_str` reads it: digits, behind one sign where
/// there is one, within the range of the type.
pub open spec fn integer_of(s: Seq<char>) -> Option<i64> {
    let negative = s.len() > 0 && s[0] == '-';
    let signed = negative || (s.len() > 0 && s[0] == '+');
    let digits = if signed {
        s.drop_first()
    } else {
        s
    };
    let n = if negative {
        -digits_value(digits)
    } else {
        digits_value(digits)
    };
    if is_digits(digits) && i64::MIN <= n <= i64::MAX {
        Some(n as i64)
    } else {
        None
    }
}

proof fn lemma_digits_grow(s: Seq<char>, n: int)
    requires
        is_digits(s),
        0 <= n <= s.len(),
    ensures
        0 <= digits_value(s.take(n)) <= digits_value(s),
    decreases s.len() - n,
{
    if n < s.len() {
        lemma_digits_grow(s, n + 1);
        assert(s.take(n + 1).drop_last() =~= s.take(n));
        assert(is_ascii_digit(s[n]));
        lemma_digits_from_zero(s, n);
    } else {
        assert(s.take(n) =~= s);
        lemma_digits_from_zero(s, n);
    }
}

proof fn lemma_digits_from_zero(s: Seq<char>, n: int)
    requires
        is_digits(s),
        0 <= n <= s.len(),
    ensures
        0 <= digits_value(s.take(n)),
    decreases n,
{
    if n > 0 {
        assert(s.take(n).drop_last() =~= s.take(n - 1));
        assert(is_ascii_digit(s[n - 1]));
        lemma_digits_from_zero(s, n - 1);
    }
}

fn all_digits(ds: &Vec<char>) -> (r: bool)
    ensures
        r == is_digits(ds@),
{
    let mut i: usize = 0;
    while i < ds.len()
        invariant
            i <= ds@.len(),
            forall|j: int| 0 <= j < i ==> is_ascii_digit(#[trigger] ds@[j]),
        decreases ds.len() - i,
    {
        if !ascii_digit(ds[i]) {
            return false;
        }
        i += 1;
    }
    ds.len() > 0
}

pub fn read_integer(s: &str) -> (r: Option<i64>)
    ensures
        r == integer_of(s@),
{
    let cs = chars_of(s);
    let negative = cs.len() > 0 && cs[0] == '-';
    let signed = negative || (cs.len() > 0 && cs[0] == '+');
    let from: usize = if signed {
        1
    } else {
        0
    };
    let ds = sub_chars(&cs, from, cs.len());
    let ghost digits = if signed {
        s@.drop_first()
    } else {
        s@
    };
    assert(ds@ =~= digits);
    if !all_digits(&ds) {
        return None;
    }
    let mut n: i128 = 0;
    let mut k: usize = 0;
    assert(ds@.take(0) =~= seq![]);
    while k < ds.len()
        invariant
            k <= ds@.len(),
            is_digits(ds@),
            ds@ == digits,
            0 <= n <= 0x8000000000000000,
            n == digits_value(ds@.take(k as int)),
            negative == (s@.len() > 0 && s@[0] == '-'),
            signed == (negative || (s@.len() > 0 && s@[0] == '+')),
            digits == if signed {
                s@.drop_first()
            } else {
                s@
            },
        decreases ds.len() - k,
    {
        assert(ds@.take(k + 1).drop_last() =~= ds@.take(k as int));
        assert(is_ascii_digit(ds@[k as int]));
        let d: u32 = ds[k] as u32 - '0' as u32;
        n = n * 10 + d as i128;
        if n > 0x8000000000000000 {
            proof {
                lemma_digits_grow(ds@, k + 1);
            }
            return None;
        }
        k += 1;
    }
    assert(ds@.take(k as int) =~= ds@);
    if negative {
        Some((-n) as i64)
    } else if n <= 0x7fffffffffffffff {
        Some(n as i64)
    } else {
        None
    }
}

/// Two lists of texts, one behind the other.
pub proof fn lemma_flat_append(a: Seq<Seq<char>>, b: Seq<Seq<char>>)
    ensures
        flat(a + b) == flat(a) + flat(b),
    decreases b.len(),
{
    if b.len() == 0 {
        assert(a + b =~= a);
        assert(flat(a) + flat(b) =~= flat(a));
    } else {
        lemma_flat_append(a, b.drop_last());
        assert((a + b).drop_last() =~= a + b.drop_last());
        assert((a + b).last() == b.last());
        assert(flat(a) + flat(b.drop_last()) + b.last() =~= flat(a) + flat(b));
    }
}

/// The number that a text stands for, as `u64::from_str` reads it: digits, behind a plus sign where
/// there is one, within the range of the type.
pub open spec fn natural_of(s: Seq<char>) -> Option<u64> {
    let digits = if s.len() > 0 && s[0] == '+' {
        s.drop_first()
    } else {
        s
    };
    if is_digits(digits) && digits_value(digits) <= u64::MAX {
        Some(digits_value(digits) as u64)
    } else {
        None
    }
}

pub fn read_natural(s: &str) -> (r: Option<u64>)
    ensures
        r == natural_of(s@),
{
    let cs = chars_of(s);
    let signed = cs.len() > 0 && cs[0] == '+';
    let from: usize = if signed {
        1
    } else {
        0
    };
    let ds = sub_chars(&cs, from, cs.len());
    let ghost digits = if signed {
        s@.drop_first()
    } else {
        s@
    };
    assert(ds@ =~= digits);
    if !all_digits(&ds) {
        return None;
    }
    let mut n: u128 = 0;
    let mut k: usize = 0;
    assert(ds@.take(0) =~= seq![]);
    while k < ds.len()
        invariant
            k <= ds@.len(),
            is_digits(ds@),
            ds@ == digits,
            n <= 0xffff_ffff_ffff_ffff,
            n == digits_value(ds@.take(k as int)),
            signed == (s@.len() > 0 && s@[0] == '+'),
            digits == if signed {
                s@.drop_first()
            } else {
                s@
            },
        decreases ds.len() - k,
    {
        assert(ds@.take(k + 1).drop_last() =~= ds@.take(k as int));
        assert(is_ascii_digit(ds@[k as int]));
        let d: u32 = ds[k] as u32 - '0' as u32;
        n = n * 10 + d as u128;
        if n > 0xffff_ffff_ffff_ffff {
            proof {
                lemma_digits_grow(ds@, k + 1);
            }
            return None;
        }
        k += 1;
    }
    assert(ds@.take(k as int) =~= ds@);
    Some(n as u64)
}

} // verus!
