//! Multi-signal probabilistic matcher in the Fellegi–Sunter style.
//!
//! A single string metric cannot separate "Mistral" / "Mistral AI" (same entity) from
//! "CoinShares" / "Coinbase" (different): both score about 0.9 on Jaro-Winkler. So several
//! comparison functions are combined as weighted evidence. Each feature is bucketed into
//! discrete levels, and each level carries a weight approximating log2(m/u): positive evidence
//! for a match, negative against. The total decides merge, review or new.
//!
//! Weights and totals are integers in millionths, so that a total is exactly the sum of the
//! contributions listed for it.

use rphonetic::{DoubleMetaphone, Encoder};
use vstd::prelude::*;
use vstd::utf8::*;

use crate::double::Double;
use crate::laws::matching::{
    goes_by, has_distinct_tokens, law_conflicting_types_never_merge, law_exact_match_is_by_name,
    law_types_agree, types_conflict,
};
use crate::text::{
    alphabetic, alphanumeric, ascii_digit, ascii_letter, ascii_lower, ascii_lower_char, chars_of,
    is_ascii_digit, is_ascii_letter, is_space, joined, lemma_joined_begins, lemma_respaced,
    lemma_words, lowercase, single_spaced, split_words, str_eq, string_of, trim, trim_chars,
    uppercase, views, words,
};

verus! {

// ---------------------------------------------------------------------------------------------
// Names and tokens

/// Tokens that add no identity: corporate suffixes, articles, generic nouns. They stay in the
/// normalized name, so exact and alias matching still work, but not in the content tokens, so
/// "Mistral" and "Mistral AI" share all of those.
pub open spec fn is_ignorable(t: Seq<char>) -> bool {
    ||| t == "inc"@
    ||| t == "incorporated"@
    ||| t == "corp"@
    ||| t == "corporation"@
    ||| t == "co"@
    ||| t == "company"@
    ||| t == "ltd"@
    ||| t == "limited"@
    ||| t == "llc"@
    ||| t == "plc"@
    ||| t == "sa"@
    ||| t == "ag"@
    ||| t == "gmbh"@
    ||| t == "pbc"@
    ||| t == "holdings"@
    ||| t == "group"@
    ||| t == "technologies"@
    ||| t == "technology"@
    ||| t == "labs"@
    ||| t == "lab"@
    ||| t == "ai"@
    ||| t == "research"@
    ||| t == "foundation"@
    ||| t == "the"@
    ||| t == "of"@
    ||| t == "and"@
    ||| t == "de"@
    ||| t == "la"@
    ||| t == "le"@
    ||| t == "les"@
    ||| t == "el"@
}

fn ignorable(t: &str) -> (r: bool)
    ensures
        r == is_ignorable(t@),
{
    str_eq(t, "inc") || str_eq(t, "incorporated") || str_eq(t, "corp") || str_eq(t, "corporation")
        || str_eq(t, "co") || str_eq(t, "company") || str_eq(t, "ltd") || str_eq(t, "limited")
        || str_eq(t, "llc") || str_eq(t, "plc") || str_eq(t, "sa") || str_eq(t, "ag") || str_eq(
        t,
        "gmbh",
    ) || str_eq(t, "pbc") || str_eq(t, "holdings") || str_eq(t, "group") || str_eq(
        t,
        "technologies",
    ) || str_eq(t, "technology") || str_eq(t, "labs") || str_eq(t, "lab") || str_eq(t, "ai")
        || str_eq(t, "research") || str_eq(t, "foundation") || str_eq(t, "the") || str_eq(t, "of")
        || str_eq(t, "and") || str_eq(t, "de") || str_eq(t, "la") || str_eq(t, "le") || str_eq(
        t,
        "les",
    ) || str_eq(t, "el")
}

/// What one lower-cased scalar value becomes: itself if alphanumeric, the word "and" for an
/// ampersand, a blank otherwise.
pub open spec fn spread_char(c: char) -> Seq<char> {
    if alphanumeric(c) {
        seq![c]
    } else if c == '&' {
        seq![' ', 'a', 'n', 'd', ' ']
    } else {
        seq![' ']
    }
}

/// The scalar values of `s`, each spread.
pub open spec fn spread(s: Seq<char>) -> Seq<char>
    decreases s.len(),
{
    if s.len() == 0 {
        seq![]
    } else {
        spread(s.drop_last()) + spread_char(s.last())
    }
}

/// The words of the lower-cased name, without punctuation, one blank apart.
pub open spec fn normalized(s: Seq<char>) -> Seq<char> {
    joined(words(spread(lowercase(s))), " "@)
}

/// What one lower-cased ASCII character becomes.
pub open spec fn plain_char(c: char) -> Seq<char> {
    if is_ascii_letter(c) || is_ascii_digit(c) {
        seq![c]
    } else if c == '&' {
        seq![' ', 'a', 'n', 'd', ' ']
    } else {
        seq![' ']
    }
}

pub open spec fn plain(s: Seq<char>) -> Seq<char>
    decreases s.len(),
{
    if s.len() == 0 {
        seq![]
    } else {
        plain(s.drop_last()) + plain_char(s.last())
    }
}

/// What an ASCII name is normalized to: letters and digits are what they are in ASCII.
pub open spec fn plain_normalized(s: Seq<char>) -> Seq<char> {
    joined(words(plain(ascii_lower(s))), " "@)
}

pub fn normalize(s: &str) -> (r: String)
    ensures
        r@ == normalized(s@),
        is_ascii_chars(s@) ==> r@ == plain_normalized(s@),
        single_spaced(r@),
        forall|i: int| 0 <= i < r@.len() ==> alphanumeric(#[trigger] r@[i]) || r@[i] == ' ',
{
    let lower = chars_of(s.to_lowercase().as_str());
    let mut out: Vec<char> = Vec::new();
    let mut i: usize = 0;
    assert(lower@.take(0) =~= seq![]);
    proof {
        if is_ascii_chars(s@) {
            lemma_lower_is_ascii(s@);
        }
    }
    while i < lower.len()
        invariant
            i <= lower@.len(),
            is_ascii_chars(s@) ==> lower@ == ascii_lower(s@) && is_ascii_chars(lower@),
            out@ == spread(lower@.take(i as int)),
            is_ascii_chars(s@) ==> out@ == plain(lower@.take(i as int)),
            forall|k: int|
                0 <= k < out@.len() ==> alphanumeric(#[trigger] out@[k]) || out@[k] == ' ',
        decreases lower.len() - i,
    {
        let c = lower[i];
        let ghost upto = lower@.take(i + 1);
        let ghost done = out@;
        assert(upto.drop_last() =~= lower@.take(i as int));
        if c.is_alphanumeric() {
            out.push(c);
        } else if c == '&' {
            // The letters of the word count as letters like those that are kept.
            let _lettered = 'a'.is_alphanumeric() && 'n'.is_alphanumeric() && 'd'.is_alphanumeric();
            assert(_lettered);
            out.push(' ');
            out.push('a');
            out.push('n');
            out.push('d');
            out.push(' ');
        } else {
            out.push(' ');
        }
        assert(out@ =~= done + spread_char(c));
        assert(is_ascii_chars(s@) ==> plain_char(c) == spread_char(c));
        i += 1;
    }
    assert(lower@.take(i as int) =~= lower@);
    let ws = split_words(&out);
    let r = crate::text::join(&ws, " ");
    proof {
        let p = |c: char| alphanumeric(c) || c == ' ';
        lemma_respaced(out@, p);
        assert forall|k: int| 0 <= k < r@.len() implies alphanumeric(#[trigger] r@[k]) || r@[k]
            == ' ' by {
            assert(p(r@[k]));
        }
    }
    r
}

proof fn lemma_lower_is_ascii(s: Seq<char>)
    requires
        is_ascii_chars(s),
    ensures
        is_ascii_chars(ascii_lower(s)),
{
    let t = ascii_lower(s);
    assert forall|i: int| 0 <= i < t.len() implies '\0' <= #[trigger] t[i] <= '\u{7f}' by {
        assert('\0' <= s[i] <= '\u{7f}');
    }
}

/// What a normalized name is made of. The letters of "and" stand for an ampersand.
pub open spec fn is_name_char(c: char) -> bool {
    alphanumeric(c) || is_ascii_letter(c) || c == ' '
}

proof fn lemma_spread(s: Seq<char>)
    ensures
        forall|i: int| 0 <= i < spread(s).len() ==> is_name_char(#[trigger] spread(s)[i]),
    decreases s.len(),
{
    if s.len() > 0 {
        lemma_spread(s.drop_last());
        let (a, b) = (spread(s.drop_last()), spread_char(s.last()));
        assert forall|i: int| 0 <= i < (a + b).len() implies is_name_char(
            #[trigger] (a + b)[i],
        ) by {
            if i < a.len() {
                assert((a + b)[i] == a[i]);
            } else {
                assert((a + b)[i] == b[i - a.len()]);
            }
        }
    }
}

/// The form of a normalized name: letters, digits and single blanks between its tokens, none at
/// the ends; its tokens one blank apart are the name again.
pub proof fn law_normalized_form(s: Seq<char>)
    ensures
        ({
            let n = normalized(s);
            &&& forall|i: int| 0 <= i < n.len() ==> is_name_char(#[trigger] n[i])
            &&& single_spaced(n)
            &&& joined(words(n), " "@) == n
        }),
{
    lemma_spread(lowercase(s));
    lemma_respaced(spread(lowercase(s)), |c: char| is_name_char(c));
    let n = normalized(s);
    let p = |c: char| is_name_char(c);
    assert forall|i: int| 0 <= i < n.len() implies is_name_char(#[trigger] n[i]) by {
        assert(p(n[i]));
    }
}

proof fn lemma_spread_stays(n: Seq<char>)
    requires
        forall|i: int| 0 <= i < n.len() ==> alphanumeric(#[trigger] n[i]) || n[i] == ' ',
    ensures
        spread(n) == n,
    decreases n.len(),
{
    if n.len() > 0 {
        let most = n.drop_last();
        assert forall|i: int| 0 <= i < most.len() implies alphanumeric(#[trigger] most[i])
            || most[i] == ' ' by {
            assert(most[i] == n[i]);
        }
        lemma_spread_stays(most);
        assert(n.last() == n[n.len() - 1]);
        assert(most + seq![n.last()] =~= n);
    }
}

/// Normalizing again changes nothing, where lower case leaves the normalized name as it is. Its
/// letters and digits are alphanumeric, as `normalize` promises.
pub proof fn law_normalizing_again(s: Seq<char>)
    requires
        lowercase(normalized(s)) == normalized(s),
        forall|i: int|
            0 <= i < normalized(s).len() ==> alphanumeric(#[trigger] normalized(s)[i])
                || normalized(s)[i] == ' ',
    ensures
        normalized(normalized(s)) == normalized(s),
{
    law_normalized_form(s);
    lemma_spread_stays(normalized(s));
}

proof fn lemma_plain(s: Seq<char>)
    requires
        forall|i: int| 0 <= i < s.len() ==> !('A' <= #[trigger] s[i] <= 'Z'),
    ensures
        forall|i: int| 0 <= i < plain(s).len() ==> is_plain(#[trigger] plain(s)[i]),
    decreases s.len(),
{
    if s.len() > 0 {
        let most = s.drop_last();
        assert forall|i: int| 0 <= i < most.len() implies !('A' <= #[trigger] most[i] <= 'Z') by {
            assert(most[i] == s[i]);
        }
        lemma_plain(most);
        assert(s.last() == s[s.len() - 1]);
        let (a, b) = (plain(most), plain_char(s.last()));
        assert forall|i: int| 0 <= i < (a + b).len() implies is_plain(#[trigger] (a + b)[i]) by {
            if i < a.len() {
                assert((a + b)[i] == a[i]);
            } else {
                assert((a + b)[i] == b[i - a.len()]);
            }
        }
    }
}

/// A lower-case ASCII letter, a digit or a blank.
pub open spec fn is_plain(c: char) -> bool {
    'a' <= c <= 'z' || is_ascii_digit(c) || c == ' '
}

proof fn lemma_plain_stays(n: Seq<char>)
    requires
        forall|i: int| 0 <= i < n.len() ==> is_plain(#[trigger] n[i]),
    ensures
        plain(n) == n,
    decreases n.len(),
{
    if n.len() > 0 {
        let most = n.drop_last();
        assert forall|i: int| 0 <= i < most.len() implies is_plain(#[trigger] most[i]) by {
            assert(most[i] == n[i]);
        }
        lemma_plain_stays(most);
        assert(n.last() == n[n.len() - 1]);
        assert(most + seq![n.last()] =~= n);
    }
}

/// The form of a normalized ASCII name: lower-case letters, digits and single blanks. Normalizing
/// it again changes nothing.
pub proof fn law_plain_normalized_form(s: Seq<char>)
    ensures
        ({
            let n = plain_normalized(s);
            &&& forall|i: int| 0 <= i < n.len() ==> is_plain(#[trigger] n[i])
            &&& is_ascii_chars(n)
            &&& single_spaced(n)
            &&& joined(words(n), " "@) == n
            &&& plain_normalized(n) == n
        }),
{
    let t = ascii_lower(s);
    assert forall|i: int| 0 <= i < t.len() implies !('A' <= #[trigger] t[i] <= 'Z') by {
        lemma_lower_char(s[i]);
    }
    lemma_plain(t);
    let p = |c: char| is_plain(c);
    lemma_respaced(plain(t), p);
    let n = plain_normalized(s);
    assert forall|i: int| 0 <= i < n.len() implies is_plain(#[trigger] n[i]) by {
        assert(p(n[i]));
    }
    assert forall|i: int| 0 <= i < n.len() implies '\0' <= #[trigger] n[i] <= '\u{7f}' by {
        assert(is_plain(n[i]));
        lemma_char_from_zero(n[i]);
    }
    assert(ascii_lower(n) =~= n) by {
        assert forall|i: int| 0 <= i < n.len() implies ascii_lower_char(#[trigger] n[i])
            == n[i] by {
            assert(is_plain(n[i]));
        }
    }
    lemma_plain_stays(n);
}

proof fn lemma_lower_char(c: char)
    ensures
        !('A' <= ascii_lower_char(c) <= 'Z'),
        ascii_lower_char(ascii_upper_char(c)) == ascii_lower_char(c),
{
}

pub open spec fn ascii_upper_char(c: char) -> char {
    if 'a' <= c <= 'z' {
        ((c as u32) - 32) as char
    } else {
        c
    }
}

/// `s` with its ASCII letters in upper case.
pub open spec fn ascii_upper(s: Seq<char>) -> Seq<char> {
    Seq::new(s.len(), |i: int| ascii_upper_char(s[i]))
}

/// The case of a name does not count.
pub proof fn law_normalizing_ignores_case(s: Seq<char>)
    ensures
        plain_normalized(ascii_upper(s)) == plain_normalized(s),
{
    assert(ascii_lower(ascii_upper(s)) =~= ascii_lower(s)) by {
        assert forall|i: int| 0 <= i < s.len() implies ascii_lower_char(
            ascii_upper_char(#[trigger] s[i]),
        ) == ascii_lower_char(s[i]) by {
            lemma_lower_char(s[i]);
        }
    }
}

pub fn tokens(norm: &str) -> (r: Vec<String>)
    ensures
        views(r@) == words(norm@),
{
    split_words(&chars_of(norm))
}

/// The tokens that are not ignorable, in order.
pub open spec fn without_ignorable(ts: Seq<Seq<char>>) -> Seq<Seq<char>>
    decreases ts.len(),
{
    if ts.len() == 0 {
        seq![]
    } else if is_ignorable(ts.last()) {
        without_ignorable(ts.drop_last())
    } else {
        without_ignorable(ts.drop_last()).push(ts.last())
    }
}

/// The tokens of a normalized name that carry identity: all of them where none would remain.
pub open spec fn content(norm: Seq<char>) -> Seq<Seq<char>> {
    let c = without_ignorable(words(norm));
    if c.len() == 0 {
        words(norm)
    } else {
        c
    }
}

/// A normalized name that is not empty has content.
pub proof fn lemma_content_is_some(s: Seq<char>)
    requires
        normalized(s).len() > 0,
    ensures
        content(normalized(s)).len() > 0,
{
    let ws = words(spread(lowercase(s)));
    let n = normalized(s);
    lemma_words(spread(lowercase(s)));
    lemma_joined_begins(ws, " "@);
    assert(ws[0].len() > 0);
    assert(n.take(ws[0].len() as int)[0] == n[0]);
    assert(!is_space(ws[0][0]));
    lemma_words(n);
}

pub fn content_tokens(norm: &str) -> (r: Vec<String>)
    ensures
        views(r@) == content(norm@),
{
    let all = tokens(norm);
    let mut out: Vec<String> = Vec::new();
    let mut i: usize = 0;
    assert(views(all@).take(0) =~= seq![]);
    assert(views(out@) =~= seq![]);
    while i < all.len()
        invariant
            i <= all@.len(),
            views(out@) == without_ignorable(views(all@).take(i as int)),
        decreases all.len() - i,
    {
        let ghost upto = views(all@).take(i + 1);
        let ghost done = views(out@);
        assert(upto.drop_last() =~= views(all@).take(i as int));
        if !ignorable(all[i].as_str()) {
            out.push(all[i].clone());
            assert(views(out@) =~= done.push(all@[i as int]@));
        }
        i += 1;
    }
    assert(views(all@).take(i as int) =~= views(all@));
    assert(views(out@).len() == out@.len());
    if out.len() == 0 {
        all
    } else {
        out
    }
}

// ---------------------------------------------------------------------------------------------
// Phonetics

/// The ASCII form of one scalar value: common Latin diacritics lose their mark, ASCII stays,
/// anything else is dropped.
pub open spec fn folded_char(c: char) -> Seq<char> {
    match c {
        'á' | 'à' | 'â' | 'ä' | 'ã' | 'å' | 'ā' => seq!['a'],
        'Á' | 'À' | 'Â' | 'Ä' | 'Ã' | 'Å' | 'Ā' => seq!['A'],
        'é' | 'è' | 'ê' | 'ë' | 'ē' | 'ě' => seq!['e'],
        'É' | 'È' | 'Ê' | 'Ë' | 'Ē' | 'Ě' => seq!['E'],
        'í' | 'ì' | 'î' | 'ï' | 'ī' => seq!['i'],
        'Í' | 'Ì' | 'Î' | 'Ï' | 'Ī' => seq!['I'],
        'ó' | 'ò' | 'ô' | 'ö' | 'õ' | 'ø' | 'ō' => seq!['o'],
        'Ó' | 'Ò' | 'Ô' | 'Ö' | 'Õ' | 'Ø' | 'Ō' => seq!['O'],
        'ú' | 'ù' | 'û' | 'ü' | 'ū' | 'ů' => seq!['u'],
        'Ú' | 'Ù' | 'Û' | 'Ü' | 'Ū' | 'Ů' => seq!['U'],
        'ñ' | 'ň' => seq!['n'],
        'Ñ' | 'Ň' => seq!['N'],
        'ç' | 'ć' | 'č' => seq!['c'],
        'Ç' | 'Ć' | 'Č' => seq!['C'],
        'ß' => seq!['s', 's'],
        'ł' => seq!['l'],
        'Ł' => seq!['L'],
        'ż' | 'ź' | 'ž' => seq!['z'],
        'Ż' | 'Ź' | 'Ž' => seq!['Z'],
        'ş' | 'š' => seq!['s'],
        'Ş' | 'Š' => seq!['S'],
        'ğ' => seq!['g'],
        'Ğ' => seq!['G'],
        'ý' | 'ÿ' => seq!['y'],
        'Ý' => seq!['Y'],
        'ř' => seq!['r'],
        'Ř' => seq!['R'],
        'ď' => seq!['d'],
        'Ď' => seq!['D'],
        'ť' => seq!['t'],
        'Ť' => seq!['T'],
        _ => if c <= '\u{7f}' {
            seq![c]
        } else {
            seq![]
        },
    }
}

/// The ASCII form of a text.
pub open spec fn folded(s: Seq<char>) -> Seq<char>
    decreases s.len(),
{
    if s.len() == 0 {
        seq![]
    } else {
        folded(s.drop_last()) + folded_char(s.last())
    }
}

proof fn lemma_char_from_zero(c: char)
    ensures
        '\0' <= c,
{
}

/// Folding leaves only ASCII.
pub proof fn lemma_folded_is_ascii(s: Seq<char>)
    ensures
        is_ascii_chars(folded(s)),
    decreases s.len(),
{
    if s.len() > 0 {
        lemma_folded_is_ascii(s.drop_last());
        let a = folded(s.drop_last());
        let b = folded_char(s.last());
        assert(b.len() <= 2);
        assert(b.len() >= 1 ==> b[0] <= '\u{7f}');
        assert(b.len() == 2 ==> b[1] <= '\u{7f}');
        assert forall|i: int| 0 <= i < b.len() implies '\0' <= #[trigger] b[i] <= '\u{7f}' by {
            lemma_char_from_zero(b[i]);
            assert(i == 0 || i == 1);
        }
        is_ascii_chars_concat(folded(s), a, b);
    }
}

/// Folds common Latin diacritics to ASCII and drops anything else; the phonetic encoder works
/// on ASCII only.
pub fn ascii_fold(s: &str) -> (r: String)
    ensures
        r@ == folded(s@),
        is_ascii_chars(r@),
{
    let cs = chars_of(s);
    let mut out: Vec<char> = Vec::new();
    let mut i: usize = 0;
    assert(cs@.take(0) =~= seq![]);
    while i < cs.len()
        invariant
            i <= cs@.len(),
            out@ == folded(cs@.take(i as int)),
        decreases cs.len() - i,
    {
        let c = cs[i];
        let ghost upto = cs@.take(i + 1);
        let ghost done = out@;
        assert(upto.drop_last() =~= cs@.take(i as int));
        match c {
            'á' | 'à' | 'â' | 'ä' | 'ã' | 'å' | 'ā' => out.push('a'),
            'Á' | 'À' | 'Â' | 'Ä' | 'Ã' | 'Å' | 'Ā' => out.push('A'),
            'é' | 'è' | 'ê' | 'ë' | 'ē' | 'ě' => out.push('e'),
            'É' | 'È' | 'Ê' | 'Ë' | 'Ē' | 'Ě' => out.push('E'),
            'í' | 'ì' | 'î' | 'ï' | 'ī' => out.push('i'),
            'Í' | 'Ì' | 'Î' | 'Ï' | 'Ī' => out.push('I'),
            'ó' | 'ò' | 'ô' | 'ö' | 'õ' | 'ø' | 'ō' => out.push('o'),
            'Ó' | 'Ò' | 'Ô' | 'Ö' | 'Õ' | 'Ø' | 'Ō' => out.push('O'),
            'ú' | 'ù' | 'û' | 'ü' | 'ū' | 'ů' => out.push('u'),
            'Ú' | 'Ù' | 'Û' | 'Ü' | 'Ū' | 'Ů' => out.push('U'),
            'ñ' | 'ň' => out.push('n'),
            'Ñ' | 'Ň' => out.push('N'),
            'ç' | 'ć' | 'č' => out.push('c'),
            'Ç' | 'Ć' | 'Č' => out.push('C'),
            'ß' => {
                out.push('s');
                out.push('s');
            },
            'ł' => out.push('l'),
            'Ł' => out.push('L'),
            'ż' | 'ź' | 'ž' => out.push('z'),
            'Ż' | 'Ź' | 'Ž' => out.push('Z'),
            'ş' | 'š' => out.push('s'),
            'Ş' | 'Š' => out.push('S'),
            'ğ' => out.push('g'),
            'Ğ' => out.push('G'),
            'ý' | 'ÿ' => out.push('y'),
            'Ý' => out.push('Y'),
            'ř' => out.push('r'),
            'Ř' => out.push('R'),
            'ď' => out.push('d'),
            'Ď' => out.push('D'),
            'ť' => out.push('t'),
            'Ť' => out.push('T'),
            _ => {
                if c <= '\u{7f}' {
                    out.push(c);
                }
            },
        }
        assert(out@ =~= done + folded_char(c));
        i += 1;
    }
    assert(cs@.take(i as int) =~= cs@);
    proof {
        lemma_folded_is_ascii(s@);
    }
    string_of(&out)
}

/// The primary Double Metaphone code of an ASCII text, at most four letters.
pub uninterp spec fn double_metaphone(s: Seq<char>) -> Seq<char>;

/// `rphonetic::DoubleMetaphone::encode` with the default code length: the primary code, a
/// function of the text alone. The encoder slices the text by bytes, so only ASCII is handed
/// to it; on ASCII every slice falls on a scalar boundary.
#[verifier::external_body]
fn metaphone(s: &str) -> (r: String)
    requires
        is_ascii_chars(s@),
    ensures
        r@ == double_metaphone(s@),
{
    DoubleMetaphone::default().encode(s)
}

pub open spec fn has_ascii_letter(s: Seq<char>) -> bool {
    exists|i: int| 0 <= i < s.len() && is_ascii_letter(#[trigger] s[i])
}

/// The phonetic code of a token: empty for a token without a Latin letter.
pub open spec fn phonetic_code(token: Seq<char>) -> Seq<char> {
    if has_ascii_letter(folded(token)) {
        double_metaphone(folded(token))
    } else {
        seq![]
    }
}

pub fn phonetic(token: &str) -> (r: String)
    ensures
        r@ == phonetic_code(token@),
{
    let f = ascii_fold(token);
    let cs = chars_of(f.as_str());
    let mut i: usize = 0;
    while i < cs.len()
        invariant
            i <= cs@.len(),
            cs@ == folded(token@),
            f@ == cs@,
            is_ascii_chars(f@),
            forall|j: int| 0 <= j < i ==> !is_ascii_letter(#[trigger] cs@[j]),
        decreases cs.len() - i,
    {
        if ascii_letter(cs[i]) {
            return metaphone(f.as_str());
        }
        i += 1;
    }
    let r = String::new();
    assert(r@ =~= seq![]);
    r
}

// ---------------------------------------------------------------------------------------------
// Acronyms

/// The number of bytes of the UTF-8 form of a text.
pub open spec fn byte_len(s: Seq<char>) -> nat {
    encode_utf8(s).len()
}

/// How many of the scalar values are alphabetic.
pub open spec fn letter_count(s: Seq<char>) -> nat
    decreases s.len(),
{
    if s.len() == 0 {
        0
    } else if alphabetic(s.last()) {
        letter_count(s.drop_last()) + 1
    } else {
        letter_count(s.drop_last())
    }
}

pub open spec fn is_acronym_char(c: char) -> bool {
    uppercase(c) || is_ascii_digit(c) || c == '.' || c == '&'
}

/// "a16z": digits in place of the letters between the first one and the last one.
pub open spec fn is_numeronym(t: Seq<char>) -> bool {
    &&& t.len() >= 3
    &&& alphabetic(t[0])
    &&& alphabetic(t.last())
    &&& forall|i: int| 0 < i < t.len() - 1 ==> is_ascii_digit(#[trigger] t[i])
}

/// "FTC", "U.S.", "a16z": short upper-case forms with at least two letters, and short forms
/// that count the letters they leave out.
pub open spec fn acronym_form(raw: Seq<char>) -> bool {
    let t = trim(raw);
    &&& letter_count(t) >= 2
    &&& byte_len(t) <= 7
    &&& is_numeronym(t) || in_capitals(t)
}

pub open spec fn in_capitals(t: Seq<char>) -> bool {
    forall|i: int| 0 <= i < t.len() ==> is_acronym_char(#[trigger] t[i])
}

fn numeronym(t: &Vec<char>) -> (r: bool)
    ensures
        r == is_numeronym(t@),
{
    let n = t.len();
    if n < 3 || !t[0].is_alphabetic() || !t[n - 1].is_alphabetic() {
        return false;
    }
    let mut i: usize = 1;
    while i < n - 1
        invariant
            n == t@.len(),
            1 <= i <= n - 1,
            forall|k: int| 0 < k < i ==> is_ascii_digit(#[trigger] t@[k]),
        decreases n - i,
    {
        if !ascii_digit(t[i]) {
            assert(!is_ascii_digit(t@[i as int]));
            return false;
        }
        i += 1;
    }
    true
}

pub fn is_acronym(raw: &str) -> (r: bool)
    ensures
        r == acronym_form(raw@),
{
    let t = trim_chars(&chars_of(raw));
    let mut letters: usize = 0;
    let mut i: usize = 0;
    assert(t@.take(0) =~= seq![]);
    while i < t.len()
        invariant
            i <= t@.len(),
            letters <= i,
            letters == letter_count(t@.take(i as int)),
        decreases t.len() - i,
    {
        assert(t@.take(i + 1).drop_last() =~= t@.take(i as int));
        if t[i].is_alphabetic() {
            letters += 1;
        }
        i += 1;
    }
    assert(t@.take(i as int) =~= t@);
    let s = string_of(&t);
    if letters < 2 || s.as_str().as_bytes().len() > 7 {
        return false;
    }
    if numeronym(&t) {
        return true;
    }
    let mut j: usize = 0;
    while j < t.len()
        invariant
            j <= t@.len(),
            t@ == trim(raw@),
            !is_numeronym(t@),
            forall|k: int| 0 <= k < j ==> is_acronym_char(#[trigger] t@[k]),
        decreases t.len() - j,
    {
        let c = t[j];
        if !(c.is_uppercase() || ascii_digit(c) || c == '.' || c == '&') {
            assert(!is_acronym_char(t@[j as int]));
            return false;
        }
        j += 1;
    }
    true
}

/// The first scalar values of the tokens that have one.
pub open spec fn initials_of(ts: Seq<Seq<char>>) -> Seq<char>
    decreases ts.len(),
{
    if ts.len() == 0 {
        seq![]
    } else if ts.last().len() == 0 {
        initials_of(ts.drop_last())
    } else {
        initials_of(ts.drop_last()).push(ts.last()[0])
    }
}

fn initials(content: &Vec<String>) -> (r: Vec<char>)
    ensures
        r@ == initials_of(views(content@)),
{
    let mut out: Vec<char> = Vec::new();
    let mut i: usize = 0;
    assert(views(content@).take(0) =~= seq![]);
    while i < content.len()
        invariant
            i <= content@.len(),
            out@ == initials_of(views(content@).take(i as int)),
        decreases content.len() - i,
    {
        assert(views(content@).take(i + 1).drop_last() =~= views(content@).take(i as int));
        let cs = chars_of(content[i].as_str());
        if cs.len() > 0 {
            out.push(cs[0]);
        }
        i += 1;
    }
    assert(views(content@).take(i as int) =~= views(content@));
    out
}

/// `s` without its blanks.
pub open spec fn unspaced(s: Seq<char>) -> Seq<char>
    decreases s.len(),
{
    if s.len() == 0 {
        seq![]
    } else if s.last() == ' ' {
        unspaced(s.drop_last())
    } else {
        unspaced(s.drop_last()).push(s.last())
    }
}

fn unspace(s: &str) -> (r: Vec<char>)
    ensures
        r@ == unspaced(s@),
{
    let cs = chars_of(s);
    let mut out: Vec<char> = Vec::new();
    let mut i: usize = 0;
    assert(cs@.take(0) =~= seq![]);
    while i < cs.len()
        invariant
            i <= cs@.len(),
            out@ == unspaced(cs@.take(i as int)),
        decreases cs.len() - i,
    {
        assert(cs@.take(i + 1).drop_last() =~= cs@.take(i as int));
        if cs[i] != ' ' {
            out.push(cs[i]);
        }
        i += 1;
    }
    assert(cs@.take(i as int) =~= cs@);
    out
}

/// `tail` ends `s`.
pub open spec fn ends_with(s: Seq<char>, tail: Seq<char>) -> bool {
    tail.len() <= s.len() && s.skip(s.len() - tail.len()) == tail
}

pub(crate) fn ends_with_chars(s: &Vec<char>, tail: &Vec<char>) -> (r: bool)
    ensures
        r == ends_with(s@, tail@),
{
    if tail.len() > s.len() {
        return false;
    }
    let r = crate::text::chars_at(s, tail, s.len() - tail.len());
    assert(s@.skip(s@.len() - tail@.len()) =~= s@.subrange(s@.len() - tail@.len(), s@.len() as int));
    r
}

/// Whether the initials of a name spell an acronym, or end with it ("U.S. Securities and
/// Exchange Commission" for SEC).
pub open spec fn spells(content: Seq<Seq<char>>, acronym: Seq<char>) -> bool {
    ends_with(initials_of(content), acronym)
}

fn initials_spell(content: &Vec<String>, acronym: &Vec<char>) -> (r: bool)
    ensures
        r == spells(views(content@), acronym@),
{
    ends_with_chars(&initials(content), acronym)
}

/// An acronym on one side against a name of two or more tokens on the other: 1 if the name's
/// initials spell the acronym, else -1. An acronym against anything else is a mismatch, -1;
/// without an acronym the feature does not apply, 0.
pub open spec fn acronym_level_of(
    m_norm: Seq<char>,
    mention: Seq<char>,
    m_content: Seq<Seq<char>>,
    cand: Seq<char>,
    c_content: Seq<Seq<char>>,
) -> int {
    if acronym_form(mention) && c_content.len() >= 2 {
        if spells(c_content, unspaced(m_norm)) {
            1
        } else {
            -1
        }
    } else if acronym_form(cand) && m_content.len() >= 2 {
        if spells(m_content, unspaced(normalized(cand))) {
            1
        } else {
            -1
        }
    } else if acronym_form(mention) || acronym_form(cand) {
        -1
    } else {
        0
    }
}

fn acronym_level(
    m_norm: &str,
    mention_raw: &str,
    m_content: &Vec<String>,
    cand_raw: &str,
    c_content: &Vec<String>,
) -> (r: i8)
    ensures
        r == acronym_level_of(
            m_norm@,
            mention_raw@,
            views(m_content@),
            cand_raw@,
            views(c_content@),
        ),
{
    let m_acr = is_acronym(mention_raw);
    let c_acr = is_acronym(cand_raw);
    if m_acr && c_content.len() >= 2 {
        return if initials_spell(c_content, &unspace(m_norm)) {
            1
        } else {
            -1
        };
    }
    if c_acr && m_content.len() >= 2 {
        return if initials_spell(m_content, &unspace(normalize(cand_raw).as_str())) {
            1
        } else {
            -1
        };
    }
    if m_acr || c_acr {
        -1
    } else {
        0
    }
}

// ---------------------------------------------------------------------------------------------
// Similarity

/// The bits of the Jaro-Winkler similarity of two texts.
pub uninterp spec fn jaro_winkler_bits(a: Seq<char>, b: Seq<char>) -> u64;

/// `strsim::jaro_winkler`: the similarity of two texts, from 0 to 1, handed over by its bits.
/// It is a function of the two texts alone, and a text has similarity 1 with itself.
#[verifier::external_body]
pub(crate) fn jaro_winkler(a: &str, b: &str) -> (r: Double)
    ensures
        r.bits == jaro_winkler_bits(a@, b@),
        a@ == b@ ==> r.bits == crate::double::ONE,
{
    Double { bits: strsim::jaro_winkler(a, b).to_bits() }
}

/// The highest similarity of the text with one of the names, 0 where there is none.
pub open spec fn best_similarity(m: Seq<char>, names: Seq<Seq<char>>) -> Double
    decreases names.len(),
{
    if names.len() == 0 {
        Double { bits: 0 }
    } else {
        best_similarity(m, names.drop_last()).spec_max(
            Double { bits: jaro_winkler_bits(m, names.last()) },
        )
    }
}

pub(crate) fn jaro_winkler_best(m: &str, names: &Vec<String>) -> (r: Double)
    ensures
        r == best_similarity(m@, views(names@)),
        views(names@).contains(m@) ==> r.rank() >= crate::double::ONE,
{
    let mut best = Double::from_bits(0);
    let mut i: usize = 0;
    assert(views(names@).take(0) =~= seq![]);
    while i < names.len()
        invariant
            i <= names@.len(),
            best == best_similarity(m@, views(names@).take(i as int)),
            forall|j: int| 0 <= j < i && names@[j]@ == m@ ==> best.rank() >= crate::double::ONE,
        decreases names.len() - i,
    {
        assert(views(names@).take(i + 1).drop_last() =~= views(names@).take(i as int));
        best = best.max(jaro_winkler(m, names[i].as_str()));
        i += 1;
    }
    assert(views(names@).take(i as int) =~= views(names@));
    proof {
        if views(names@).contains(m@) {
            let j = choose|j: int| 0 <= j < views(names@).len() && views(names@)[j] == m@;
            assert(names@[j]@ == m@);
        }
    }
    best
}

/// The bits of the doubles 0.95, 0.87 and 0.75, at which the similarity levels begin.
pub const SIMILAR_TOP: u64 = 0x3fee666666666666;

pub const SIMILAR_HIGH: u64 = 0x3febd70a3d70a3d7;

pub const SIMILAR_LOW: u64 = 0x3fe8000000000000;

/// The level of a similarity: 3 from 0.95 on, 2 from 0.87, 1 from 0.75, else 0.
pub open spec fn name_level_of(jw: Double) -> u8 {
    if jw.rank() >= SIMILAR_TOP {
        3
    } else if jw.rank() >= SIMILAR_HIGH {
        2
    } else if jw.rank() >= SIMILAR_LOW {
        1
    } else {
        0
    }
}

fn name_level(jw: Double) -> (r: u8)
    ensures
        r == name_level_of(jw),
{
    if jw.at_least(Double::from_bits(SIMILAR_TOP)) {
        3
    } else if jw.at_least(Double::from_bits(SIMILAR_HIGH)) {
        2
    } else if jw.at_least(Double::from_bits(SIMILAR_LOW)) {
        1
    } else {
        0
    }
}

// ---------------------------------------------------------------------------------------------
// Token overlap

/// A fraction of two counts.
#[derive(Clone, Copy, Debug, PartialEq, Eq, Structural)]
pub struct Ratio {
    pub num: u128,
    pub den: u128,
}

impl Ratio {
    /// The denominator is not zero.
    pub open spec fn wf(self) -> bool {
        self.den > 0
    }

    /// `self >= n / d`.
    pub open spec fn reaches(self, n: int, d: int) -> bool {
        self.num * d >= n * self.den
    }

    /// `self >= other`, by comparing whole parts and then the reciprocals of what is left, so
    /// that no product is formed.
    pub fn at_least(self, other: Ratio) -> (r: bool)
        requires
            self.wf(),
            other.wf(),
        ensures
            r == self.reaches(other.num as int, other.den as int),
        decreases self.den + other.den,
    {
        let (a, b, c, d) = (self.num, self.den, other.num, other.den);
        let p = a / b;
        let q = c / d;
        let x = a % b;
        let y = c % d;
        proof {
            lemma_fraction_step(a as int, b as int, c as int, d as int);
        }
        if p != q {
            return p > q;
        }
        if y == 0 {
            assert((c % d) * b == 0) by (nonlinear_arith)
                requires
                    c % d == 0,
            ;
            return true;
        }
        assert((c % d) * b > 0) by (nonlinear_arith)
            requires
                c % d > 0,
                b > 0,
        ;
        if x == 0 {
            assert((a % b) * d == 0) by (nonlinear_arith)
                requires
                    a % b == 0,
            ;
            return false;
        }
        assert(d * x == (a % b) * d && b * y == (c % d) * b) by (nonlinear_arith)
            requires
                x == a % b,
                y == c % d,
        ;
        Ratio { num: d, den: y }.at_least(Ratio { num: b, den: x })
    }
}

proof fn lemma_fraction_step(a: int, b: int, c: int, d: int)
    requires
        a >= 0,
        b > 0,
        c >= 0,
        d > 0,
    ensures
        a / b > c / d ==> a * d >= c * b,
        a / b < c / d ==> a * d < c * b,
        a / b == c / d ==> ((a * d >= c * b) == ((a % b) * d >= (c % d) * b)),
        (a % b) * d >= 0,
{
    let (p, x, q, y) = (a / b, a % b, c / d, c % d);
    vstd::arithmetic::div_mod::lemma_fundamental_div_mod(a, b);
    vstd::arithmetic::div_mod::lemma_fundamental_div_mod(c, d);
    assert(0 <= x < b && 0 <= y < d);
    assert(a * d == p * (b * d) + x * d) by (nonlinear_arith)
        requires
            a == b * p + x,
    ;
    assert(c * b == q * (b * d) + y * b) by (nonlinear_arith)
        requires
            c == d * q + y,
    ;
    assert(0 <= x * d < b * d) by (nonlinear_arith)
        requires
            0 <= x < b,
            d > 0,
    ;
    assert(0 <= y * b < b * d) by (nonlinear_arith)
        requires
            0 <= y < d,
            b > 0,
    ;
    let m = b * d;
    if p > q {
        assert(p * m >= (q + 1) * m) by (nonlinear_arith)
            requires
                p >= q + 1,
                m >= 0,
        ;
        assert((q + 1) * m == q * m + m) by (nonlinear_arith);
    }
    if p < q {
        assert(q * m >= (p + 1) * m) by (nonlinear_arith)
            requires
                q >= p + 1,
                m >= 0,
        ;
        assert((p + 1) * m == p * m + m) by (nonlinear_arith);
    }
}

/// The tokens, each once.
fn distinct(ts: &Vec<String>) -> (r: Vec<String>)
    ensures
        views(r@).no_duplicates(),
        views(r@).to_set() == views(ts@).to_set(),
        r@.len() <= ts@.len(),
{
    let mut out: Vec<String> = Vec::new();
    let mut i: usize = 0;
    while i < ts.len()
        invariant
            i <= ts@.len(),
            out@.len() <= i,
            views(out@).no_duplicates(),
            forall|t: Seq<char>|
                views(out@).contains(t) <==> views(ts@).take(i as int).contains(t),
        decreases ts.len() - i,
    {
        let ghost was = views(out@);
        let ghost t0 = ts@[i as int]@;
        let ghost upto = views(ts@).take(i as int);
        let ghost next = views(ts@).take(i + 1);
        assert(next =~= upto.push(t0));
        if !crate::text::list_has(&out, ts[i].as_str()) {
            out.push(ts[i].clone());
            assert(views(out@) =~= was.push(t0));
        }
        assert forall|t: Seq<char>| views(out@).contains(t) <==> next.contains(t) by {
            lemma_push_contains(was, t0, t);
            lemma_push_contains(upto, t0, t);
        }
        i += 1;
    }
    assert(views(ts@).take(i as int) =~= views(ts@));
    assert(views(out@).to_set() =~= views(ts@).to_set());
    out
}

pub(crate) proof fn lemma_push_contains<T>(s: Seq<T>, x: T, t: T)
    ensures
        s.push(x).contains(t) <==> (s.contains(t) || t == x),
{
    if s.contains(t) {
        let k = choose|k: int| 0 <= k < s.len() && s[k] == t;
        assert(s.push(x)[k] == t);
    }
    if t == x {
        assert(s.push(x)[s.len() as int] == t);
    }
    if s.push(x).contains(t) {
        let k = choose|k: int| 0 <= k < s.push(x).len() && s.push(x)[k] == t;
        if k < s.len() {
            assert(s[k] == t);
        }
    }
}

pub(crate) proof fn lemma_push_no_duplicates<T>(s: Seq<T>, x: T)
    requires
        s.no_duplicates(),
        !s.contains(x),
    ensures
        s.push(x).no_duplicates(),
{
    let p = s.push(x);
    assert forall|i: int, j: int| 0 <= i < p.len() && 0 <= j < p.len() && i != j implies p[i]
        != p[j] by {
        if i == s.len() {
            assert(s.contains(s[j]));
        } else if j == s.len() {
            assert(s.contains(s[i]));
        }
    }
}

/// The tokens that two names share.
pub open spec fn shared(a: Seq<Seq<char>>, b: Seq<Seq<char>>) -> Set<Seq<char>> {
    a.to_set().intersect(b.to_set())
}

/// The tokens of either name.
pub open spec fn united(a: Seq<Seq<char>>, b: Seq<Seq<char>>) -> Set<Seq<char>> {
    a.to_set().union(b.to_set())
}

/// The tokens present on only one side.
pub open spec fn unshared(a: Seq<Seq<char>>, b: Seq<Seq<char>>) -> Set<Seq<char>> {
    a.to_set().difference(b.to_set()).union(b.to_set().difference(a.to_set()))
}

/// How many tokens two names share, how many either has, and how many only one has.
fn overlap(a: &Vec<String>, b: &Vec<String>) -> (r: (u128, u128, u128))
    ensures
        r.0 == shared(views(a@), views(b@)).len(),
        r.1 == united(views(a@), views(b@)).len(),
        r.2 == unshared(views(a@), views(b@)).len(),
{
    let da = distinct(a);
    let db = distinct(b);
    let mut common: u128 = 0;
    let ghost mut both: Seq<Seq<char>> = seq![];
    let mut i: usize = 0;
    while i < da.len()
        invariant
            i <= da@.len(),
            common == both.len(),
            common <= i,
            both.no_duplicates(),
            views(da@).no_duplicates(),
            forall|t: Seq<char>|
                both.contains(t) <==> views(da@).take(i as int).contains(t) && views(
                    db@,
                ).contains(t),
        decreases da.len() - i,
    {
        let ghost t0 = da@[i as int]@;
        let ghost upto = views(da@).take(i as int);
        let ghost was = both;
        assert(views(da@).take(i + 1) =~= upto.push(t0));
        assert(!upto.contains(t0)) by {
            if upto.contains(t0) {
                let k = choose|k: int| 0 <= k < upto.len() && upto[k] == t0;
                assert(views(da@)[k] == views(da@)[i as int]);
            }
        }
        let hit = crate::text::list_has(&db, da[i].as_str());
        if hit {
            proof {
                assert(!was.contains(t0));
                both = both.push(t0);
                lemma_push_no_duplicates(was, t0);
            }
            common += 1;
        }
        assert forall|t: Seq<char>|
            both.contains(t) <==> views(da@).take(i + 1).contains(t) && views(db@).contains(t) by {
            lemma_push_contains(was, t0, t);
            lemma_push_contains(upto, t0, t);
        }
        i += 1;
    }
    proof {
        assert(views(da@).take(i as int) =~= views(da@));
        let sa = views(a@).to_set();
        let sb = views(b@).to_set();
        assert forall|t: Seq<char>| both.contains(t) <==> sa.intersect(sb).contains(t) by {
            assert(views(da@).to_set().contains(t) <==> views(da@).contains(t));
            assert(views(db@).to_set().contains(t) <==> views(db@).contains(t));
        }
        assert(both.to_set() =~= sa.intersect(sb));
        both.unique_seq_to_set();
        views(da@).unique_seq_to_set();
        views(db@).unique_seq_to_set();
        lemma_overlap_counts(views(a@), views(b@));
    }
    let na = da.len() as u128;
    let nb = db.len() as u128;
    proof {
        vstd::set_lib::lemma_len_intersect::<Seq<char>>(views(a@).to_set(), views(b@).to_set());
        assert(views(a@).to_set().intersect(views(b@).to_set()) =~= views(b@).to_set().intersect(
            views(a@).to_set(),
        ));
        vstd::set_lib::lemma_len_intersect::<Seq<char>>(views(b@).to_set(), views(a@).to_set());
    }
    (common, na - common + nb, (na - common) + (nb - common))
}

proof fn lemma_overlap_counts(a: Seq<Seq<char>>, b: Seq<Seq<char>>)
    ensures
        a.to_set().finite(),
        b.to_set().finite(),
        united(a, b).len() == a.to_set().len() + b.to_set().len() - shared(a, b).len(),
        unshared(a, b).len() == a.to_set().len() + b.to_set().len() - 2 * shared(a, b).len(),
{
    broadcast use vstd::seq_lib::seq_to_set_is_finite;
    let x = a.to_set();
    let y = b.to_set();
    vstd::set_lib::lemma_set_intersect_union_lens(x, y);
    let xd = x.difference(y);
    let yd = y.difference(x);
    assert(xd.disjoint(yd));
    vstd::set_lib::lemma_set_disjoint_lens(xd, yd);
    assert(x =~= xd.union(x.intersect(y)));
    assert(xd.disjoint(x.intersect(y)));
    vstd::set_lib::lemma_set_disjoint_lens(xd, x.intersect(y));
    assert(y =~= yd.union(x.intersect(y)));
    assert(yd.disjoint(x.intersect(y)));
    vstd::set_lib::lemma_set_disjoint_lens(yd, x.intersect(y));
    assert(xd + yd =~= xd.union(yd));
}

/// Shared tokens over all tokens, as numerator and denominator; 0 where a side has none.
pub open spec fn jaccard_of(a: Seq<Seq<char>>, b: Seq<Seq<char>>) -> (nat, nat) {
    if a.len() == 0 || b.len() == 0 {
        (0, 1)
    } else {
        (shared(a, b).len(), united(a, b).len())
    }
}

fn jaccard(a: &Vec<String>, b: &Vec<String>) -> (r: Ratio)
    ensures
        r.wf(),
        (r.num as nat, r.den as nat) == jaccard_of(views(a@), views(b@)),
{
    if a.len() == 0 || b.len() == 0 {
        return Ratio { num: 0, den: 1 };
    }
    let (num, den, _) = overlap(a, b);
    proof {
        lemma_overlap_counts(views(a@), views(b@));
        let u = united(views(a@), views(b@));
        assert(views(a@).contains(views(a@)[0]));
        assert(u.contains(views(a@)[0]));
        if u.len() == 0 {
            assert(u =~= Set::empty());
        }
    }
    Ratio { num, den }
}

/// The overlap of `m` with `x` is at least its overlap with `y`.
pub open spec fn overlaps_as_much(
    m: Seq<Seq<char>>,
    x: Seq<Seq<char>>,
    y: Seq<Seq<char>>,
) -> bool {
    let (a, b) = jaccard_of(m, x);
    let (c, d) = jaccard_of(m, y);
    a * d >= c * b
}

/// Which of the names overlaps most with the tokens `m`, the last of several that do.
pub open spec fn closest(m: Seq<Seq<char>>, names: Seq<Seq<char>>) -> int
    decreases names.len(),
{
    if names.len() <= 1 {
        0
    } else {
        let p = closest(m, names.drop_last());
        let n = names.len() - 1;
        if overlaps_as_much(m, content(names[n]), content(names[p])) {
            n
        } else {
            p
        }
    }
}

pub proof fn lemma_closest_in_range(m: Seq<Seq<char>>, names: Seq<Seq<char>>)
    requires
        names.len() > 0,
    ensures
        0 <= closest(m, names) < names.len(),
    decreases names.len(),
{
    if names.len() > 1 {
        lemma_closest_in_range(m, names.drop_last());
    }
}

/// Two token lists hold the same tokens, and there are some.
pub open spec fn same_tokens(a: Seq<Seq<char>>, b: Seq<Seq<char>>) -> bool {
    &&& a.len() > 0
    &&& b.len() > 0
    &&& a.to_set() == b.to_set()
}

pub proof fn lemma_overlap_is_full(a: Seq<Seq<char>>, b: Seq<Seq<char>>)
    ensures
        jaccard_of(a, b).0 <= jaccard_of(a, b).1,
        jaccard_of(a, b).1 > 0,
        same_tokens(a, b) <==> jaccard_of(a, b).0 == jaccard_of(a, b).1,
        same_tokens(a, b) ==> unshared(a, b).len() == 0,
{
    lemma_overlap_counts(a, b);
    if a.len() > 0 && b.len() > 0 {
        let s = shared(a, b);
        let u = united(a, b);
        assert(s.subset_of(u));
        vstd::set_lib::lemma_len_subset(s, u);
        if s.len() == u.len() {
            vstd::set_lib::lemma_subset_equality(s, u);
            assert forall|x: Seq<char>| a.to_set().contains(x) == b.to_set().contains(x) by {
                assert(s.contains(x) == u.contains(x));
            }
            assert(a.to_set() =~= b.to_set());
        }
        if a.to_set() == b.to_set() {
            assert(s =~= u);
            assert(unshared(a, b) =~= Set::empty());
        }
        assert(a.to_set().contains(a[0]));
        assert(u.contains(a[0]));
        if u.len() == 0 {
            assert(u =~= Set::empty());
        }
    }
}

/// Where one of the names has the tokens of the mention, so has the best-overlapping one.
pub proof fn lemma_closest_is_full(m: Seq<Seq<char>>, names: Seq<Seq<char>>, k: int)
    requires
        0 <= k < names.len(),
        same_tokens(m, content(names[k])),
    ensures
        same_tokens(m, content(names[closest(m, names)])),
    decreases names.len(),
{
    if names.len() > 1 {
        let most = names.drop_last();
        let n = names.len() - 1;
        let p = closest(m, most);
        lemma_closest_in_range(m, most);
        assert(most[p] == names[p]);
        let (a, b) = jaccard_of(m, content(names[n]));
        let (c, d) = jaccard_of(m, content(names[p]));
        lemma_overlap_is_full(m, content(names[n]));
        lemma_overlap_is_full(m, content(names[p]));
        if k < n {
            assert(most[k] == names[k]);
            lemma_closest_is_full(m, most, k);
            assert(a * d >= d * b ==> a >= b) by (nonlinear_arith)
                requires
                    d > 0,
            ;
        } else {
            assert(a * d >= c * b) by (nonlinear_arith)
                requires
                    a == b,
                    c <= d,
                    b > 0,
            ;
        }
    }
}

/// The content tokens of the best-overlapping name, and the overlap.
fn closest_name(m: &Vec<String>, names: &Vec<String>) -> (r: (Vec<String>, Ratio))
    requires
        names@.len() > 0,
    ensures
        views(r.0@) == content(views(names@)[closest(views(m@), views(names@))]),
        r.1.wf(),
        (r.1.num as nat, r.1.den as nat) == jaccard_of(views(m@), views(r.0@)),
{
    let mut best = content_tokens(names[0].as_str());
    let mut ratio = jaccard(m, &best);
    let mut i: usize = 1;
    let ghost mut at: int = 0;
    while i < names.len()
        invariant
            1 <= i <= names@.len(),
            0 <= at < i,
            at == closest(views(m@), views(names@).take(i as int)),
            views(best@) == content(views(names@)[at]),
            ratio.wf(),
            (ratio.num as nat, ratio.den as nat) == jaccard_of(views(m@), views(best@)),
        decreases names.len() - i,
    {
        let ghost upto = views(names@).take(i + 1);
        assert(upto.drop_last() =~= views(names@).take(i as int));
        assert(upto[at] == views(names@)[at]);
        let ct = content_tokens(names[i].as_str());
        let j = jaccard(m, &ct);
        if j.at_least(ratio) {
            best = ct;
            ratio = j;
            proof {
                at = i as int;
            }
        }
        i += 1;
    }
    assert(views(names@).take(i as int) =~= views(names@));
    (best, ratio)
}

// ---------------------------------------------------------------------------------------------
// Levels

/// The phonetic codes of the tokens that have one.
pub open spec fn codes(ts: Seq<Seq<char>>) -> Seq<Seq<char>>
    decreases ts.len(),
{
    if ts.len() == 0 {
        seq![]
    } else if phonetic_code(ts.last()).len() == 0 {
        codes(ts.drop_last())
    } else {
        codes(ts.drop_last()).push(phonetic_code(ts.last()))
    }
}

fn phonetic_codes(ts: &Vec<String>) -> (r: Vec<String>)
    ensures
        views(r@) == codes(views(ts@)),
{
    let mut out: Vec<String> = Vec::new();
    let mut i: usize = 0;
    assert(views(ts@).take(0) =~= seq![]);
    assert(views(out@) =~= seq![]);
    while i < ts.len()
        invariant
            i <= ts@.len(),
            views(out@) == codes(views(ts@).take(i as int)),
        decreases ts.len() - i,
    {
        let ghost was = views(out@);
        assert(views(ts@).take(i + 1).drop_last() =~= views(ts@).take(i as int));
        let p = phonetic(ts[i].as_str());
        let ghost pv = p@;
        if !p.as_str().is_empty() {
            out.push(p);
            assert(views(out@) =~= was.push(pv));
        }
        i += 1;
    }
    assert(views(ts@).take(i as int) =~= views(ts@));
    out
}

/// Every text of `a` is one of `b`.
pub open spec fn all_in(a: Seq<Seq<char>>, b: Seq<Seq<char>>) -> bool {
    forall|i: int| 0 <= i < a.len() ==> b.contains(#[trigger] a[i])
}

fn all_among(a: &Vec<String>, b: &Vec<String>) -> (r: bool)
    ensures
        r == all_in(views(a@), views(b@)),
{
    let mut i: usize = 0;
    while i < a.len()
        invariant
            i <= a@.len(),
            forall|j: int| 0 <= j < i ==> views(b@).contains(#[trigger] views(a@)[j]),
        decreases a.len() - i,
    {
        if !crate::text::list_has(b, a[i].as_str()) {
            assert(!views(b@).contains(views(a@)[i as int]));
            return false;
        }
        i += 1;
    }
    true
}

/// The token sounds like one of `ts`: it is one of them, or has the code of one.
pub open spec fn has_counterpart(t: Seq<char>, ts: Seq<Seq<char>>) -> bool {
    ts.contains(t) || codes(ts).contains(phonetic_code(t))
}

/// Every token of `a` has a phonetic counterpart in `b`.
pub open spec fn sounds_within(a: Seq<Seq<char>>, b: Seq<Seq<char>>) -> bool {
    forall|i: int| 0 <= i < a.len() ==> has_counterpart(#[trigger] a[i], b)
}

/// `pb` holds the codes of the tokens `b`.
fn all_sound_within(a: &Vec<String>, b: &Vec<String>, pb: &Vec<String>) -> (r: bool)
    requires
        views(pb@) == codes(views(b@)),
    ensures
        r == sounds_within(views(a@), views(b@)),
{
    let mut i: usize = 0;
    while i < a.len()
        invariant
            i <= a@.len(),
            views(pb@) == codes(views(b@)),
            forall|j: int| 0 <= j < i ==> has_counterpart(#[trigger] views(a@)[j], views(b@)),
        decreases a.len() - i,
    {
        let t = a[i].as_str();
        if !crate::text::list_has(b, t) && !crate::text::list_has(pb, phonetic(t).as_str()) {
            assert(!has_counterpart(views(a@)[i as int], views(b@)));
            return false;
        }
        i += 1;
    }
    true
}

/// 2 if every token on both sides has a phonetic counterpart, 1 if one side is a phonetic
/// subset of the other, 0 if neither. A token without a code, such as a number, has no other
/// counterpart than itself; where no token of a side has a code there is nothing to hear, 0.
pub open spec fn phonetic_level_of(a: Seq<Seq<char>>, b: Seq<Seq<char>>) -> int {
    if codes(a).len() == 0 || codes(b).len() == 0 {
        0
    } else if sounds_within(a, b) && sounds_within(b, a) {
        2
    } else if sounds_within(a, b) || sounds_within(b, a) {
        1
    } else {
        0
    }
}

pub fn phonetic_level(a: &Vec<String>, b: &Vec<String>) -> (r: u8)
    ensures
        r == phonetic_level_of(views(a@), views(b@)),
{
    let pa = phonetic_codes(a);
    let pb = phonetic_codes(b);
    assert(views(pa@).len() == pa@.len() && views(pb@).len() == pb@.len());
    if pa.len() == 0 || pb.len() == 0 {
        return 0;
    }
    let a_in_b = all_sound_within(a, b, &pb);
    let b_in_a = all_sound_within(b, a, &pa);
    if a_in_b && b_in_a {
        2
    } else if a_in_b || b_in_a {
        1
    } else {
        0
    }
}

/// Containment structure between the two content-token sequences.
///
/// 2, strong: a side of several tokens begins or ends the other ("Federal Reserve" in "US
/// Federal Reserve"), or a single token is the last token ("Amodei" in "Dario Amodei":
/// surnames identify people). 1, weak: a single token stands elsewhere ("Anthony" in "Anthony
/// Ha": first names are ambiguous), or the tokens of one side are scattered among the other's.
/// 0: no containment.
pub open spec fn subset_level_of(a: Seq<Seq<char>>, b: Seq<Seq<char>>) -> int {
    let (short, long) = if a.len() <= b.len() {
        (a, b)
    } else {
        (b, a)
    };
    let n = short.len() as int;
    if n == 0 || n == long.len() || !all_in(short, long) {
        0
    } else if long.skip(long.len() - n) == short {
        2
    } else if n > 1 && long.take(n) == short {
        2
    } else {
        1
    }
}

/// The tokens `part` stand in `whole` from position `from` on.
fn tokens_at(whole: &Vec<String>, part: &Vec<String>, from: usize) -> (r: bool)
    requires
        from + part@.len() <= whole@.len(),
    ensures
        r == (views(whole@).subrange(from as int, from + part@.len()) == views(part@)),
{
    let mut i: usize = 0;
    let ghost window = views(whole@).subrange(from as int, from + part@.len());
    while i < part.len()
        invariant
            i <= part@.len(),
            from + part.len() <= whole.len(),
            window == views(whole@).subrange(from as int, from + part@.len()),
            forall|j: int| 0 <= j < i ==> window[j] == views(part@)[j],
        decreases part.len() - i,
    {
        if !str_eq(whole[from + i].as_str(), part[i].as_str()) {
            assert(window[i as int] != views(part@)[i as int]);
            return false;
        }
        i += 1;
    }
    assert(window =~= views(part@));
    true
}

fn subset_level(a: &Vec<String>, b: &Vec<String>) -> (r: u8)
    ensures
        r == subset_level_of(views(a@), views(b@)),
{
    let (short, long) = if a.len() <= b.len() {
        (a, b)
    } else {
        (b, a)
    };
    let n = short.len();
    if n == 0 || n == long.len() || !all_among(short, long) {
        return 0;
    }
    let ghost l = views(long@);
    assert(l.skip(l.len() - n) =~= l.subrange(l.len() - n, l.len() as int));
    assert(l.take(n as int) =~= l.subrange(0, n as int));
    if tokens_at(long, short, long.len() - n) {
        2
    } else if n > 1 && tokens_at(long, short, 0) {
        2
    } else {
        1
    }
}

/// A type label that says something.
pub open spec fn is_known_type(t: Seq<char>) -> bool {
    t.len() > 0 && t != "unknown"@ && t != "other"@
}

/// 3 if the types agree, 2 if either side is unknown, 1 for organization against product
/// (recognizers label a company and its eponymous product either way), 0 for any other
/// disagreement.
pub open spec fn type_level_of(mention_type: Option<Seq<char>>, entity_type: Seq<char>) -> int {
    let m = match mention_type {
        Some(t) => lowercase(t),
        None => seq![],
    };
    let e = lowercase(entity_type);
    if !is_known_type(m) || !is_known_type(e) {
        2
    } else if m == e {
        3
    } else if (m == "organization"@ && e == "product"@) || (m == "product"@ && e
        == "organization"@) {
        1
    } else {
        0
    }
}

fn known_type(t: &str) -> (r: bool)
    ensures
        r == is_known_type(t@),
{
    !t.is_empty() && !str_eq(t, "unknown") && !str_eq(t, "other")
}

fn type_level(mention_type: Option<&str>, entity_type: &str) -> (r: u8)
    ensures
        r == type_level_of(crate::text::opt_str(mention_type), entity_type@),
{
    let m = match mention_type {
        Some(t) => t.to_lowercase(),
        None => {
            let s = String::new();
            assert(s@ =~= seq![]);
            s
        },
    };
    let e = entity_type.to_lowercase();
    if !known_type(m.as_str()) || !known_type(e.as_str()) {
        2
    } else if m == e {
        3
    } else if (str_eq(m.as_str(), "organization") && str_eq(e.as_str(), "product")) || (str_eq(
        m.as_str(),
        "product",
    ) && str_eq(e.as_str(), "organization")) {
        1
    } else {
        0
    }
}

// ---------------------------------------------------------------------------------------------
// Features

/// Everything the matcher knows about an existing entity, with what the graph adds to it.
pub struct Candidate<'a> {
    pub canonical: &'a str,
    pub aliases: &'a [String],
    pub entity_type: &'a str,
    /// Share of the mention's co-mentioned, already resolved entities that link to this
    /// candidate.
    pub cooc: Ratio,
    /// Distinct source items that have resolved to this candidate.
    pub corroboration: u32,
    pub recent: bool,
}

/// What was observed of a mention and a candidate.
#[derive(Clone, Copy, Debug, PartialEq, Eq, Structural)]
pub struct Features {
    pub name_jw: Double,
    pub name_level: u8,
    pub alias_exact: bool,
    pub token_jaccard: Ratio,
    pub phonetic: u8,
    /// 0 hard conflict, 1 soft conflict (organization/product), 2 unknown, 3 agree
    pub type_agree: u8,
    /// Content tokens present on only one side.
    pub extra_tokens: u128,
    /// 2 = shorter side begins or ends the longer, 1 = subset, 0 = neither
    pub token_subset: u8,
    /// 1 = acronym matches the other side's initials, -1 = acronym mismatch, 0 = not applicable
    pub acronym: i8,
    pub cooc: Ratio,
    pub corroboration: u32,
    pub recent: bool,
}

impl Features {
    /// The levels are levels and the fractions are fractions.
    pub open spec fn wf(self) -> bool {
        &&& self.name_level <= 3
        &&& self.phonetic <= 2
        &&& self.type_agree <= 3
        &&& self.token_subset <= 2
        &&& -1 <= self.acronym <= 1
        &&& self.token_jaccard.wf()
        &&& self.cooc.wf()
    }
}

/// The texts that are not empty, in order.
pub open spec fn nonempty(ts: Seq<Seq<char>>) -> Seq<Seq<char>>
    decreases ts.len(),
{
    if ts.len() == 0 {
        seq![]
    } else if ts.last().len() == 0 {
        nonempty(ts.drop_last())
    } else {
        nonempty(ts.drop_last()).push(ts.last())
    }
}

/// The normalized names of a candidate, the canonical one first, without empty ones.
pub open spec fn candidate_names(canonical: Seq<char>, aliases: Seq<Seq<char>>) -> Seq<Seq<char>> {
    nonempty(seq![normalized(canonical)] + Seq::new(aliases.len(), |i: int| normalized(aliases[i])))
}

fn names_of(canonical: &str, aliases: &[String]) -> (r: Vec<String>)
    ensures
        views(r@) == candidate_names(canonical@, views(aliases@)),
{
    let ghost all = seq![normalized(canonical@)] + Seq::new(
        aliases@.len(),
        |i: int| normalized(views(aliases@)[i]),
    );
    let mut out: Vec<String> = Vec::new();
    let c = normalize(canonical);
    let ghost cv = c@;
    assert(all.take(1).drop_last() =~= seq![]);
    assert(all.take(1).last() == cv);
    assert(nonempty(seq![]) =~= Seq::<Seq<char>>::empty());
    assert(views(out@) =~= seq![]);
    if !c.as_str().is_empty() {
        out.push(c);
        assert(views(out@) =~= Seq::<Seq<char>>::empty().push(cv));
    }
    assert(views(out@) =~= nonempty(all.take(1)));
    let mut i: usize = 0;
    while i < aliases.len()
        invariant
            i <= aliases@.len(),
            all == seq![normalized(canonical@)] + Seq::new(
                aliases@.len(),
                |i: int| normalized(views(aliases@)[i]),
            ),
            views(out@) == nonempty(all.take(i + 1)),
        decreases aliases.len() - i,
    {
        let ghost was = views(out@);
        assert(all.take(i + 2).drop_last() =~= all.take(i + 1));
        let a = normalize(aliases[i].as_str());
        let ghost av = a@;
        assert(all.take(i + 2).last() == av);
        if !a.as_str().is_empty() {
            out.push(a);
            assert(views(out@) =~= was.push(av));
        }
        i += 1;
    }
    assert(all.take(i + 1) =~= all);
    out
}

/// What is observed of a mention and a candidate.
pub open spec fn features_of(
    mention: Seq<char>,
    mention_type: Option<Seq<char>>,
    canonical: Seq<char>,
    aliases: Seq<Seq<char>>,
    entity_type: Seq<char>,
    context: (Ratio, u32, bool),
) -> Features {
    let m_norm = normalized(mention);
    let names = candidate_names(canonical, aliases);
    let m = content(m_norm);
    let cc = if names.len() == 0 {
        content(normalized(canonical))
    } else {
        content(names[closest(m, names)])
    };
    let overlap = if names.len() == 0 {
        (0nat, 1nat)
    } else {
        jaccard_of(m, cc)
    };
    let exact = m_norm.len() > 0 && names.contains(m_norm);
    Features {
        name_jw: best_similarity(m_norm, names),
        name_level: name_level_of(best_similarity(m_norm, names)),
        alias_exact: exact,
        token_jaccard: Ratio { num: overlap.0 as u128, den: overlap.1 as u128 },
        phonetic: phonetic_level_of(m, cc) as u8,
        type_agree: type_level_of(mention_type, entity_type) as u8,
        extra_tokens: unshared(m, cc).len() as u128,
        token_subset: subset_level_of(m, cc) as u8,
        acronym: if exact {
            0
        } else {
            acronym_level_of(m_norm, mention, m, canonical, cc) as i8
        },
        cooc: context.0,
        corroboration: context.1,
        recent: context.2,
    }
}

/// Compares a mention with a candidate, signal by signal.
pub fn compare(mention: &str, mention_type: Option<&str>, cand: &Candidate) -> (r: Features)
    requires
        cand.cooc.wf(),
    ensures
        r.wf(),
        r == features_of(
            mention@,
            crate::text::opt_str(mention_type),
            cand.canonical@,
            views(cand.aliases@),
            cand.entity_type@,
            (cand.cooc, cand.corroboration, cand.recent),
        ),
        r.alias_exact ==> r.name_level == 3 && r.token_jaccard.reaches(1, 1) && r.extra_tokens == 0,
{
    let m_norm = normalize(mention);
    let names = names_of(cand.canonical, cand.aliases);
    let alias_exact = !m_norm.as_str().is_empty() && crate::text::list_has(
        &names,
        m_norm.as_str(),
    );
    let name_jw = jaro_winkler_best(m_norm.as_str(), &names);
    let m_content = content_tokens(m_norm.as_str());
    let (c_content, token_jaccard) = if names.len() == 0 {
        let c_norm = normalize(cand.canonical);
        (content_tokens(c_norm.as_str()), Ratio { num: 0, den: 1 })
    } else {
        closest_name(&m_content, &names)
    };
    assert(views(names@).len() == names@.len());
    let (_, _, extra_tokens) = overlap(&m_content, &c_content);
    let acronym = if alias_exact {
        0
    } else {
        acronym_level(m_norm.as_str(), mention, &m_content, cand.canonical, &c_content)
    };
    proof {
        if alias_exact {
            let ns = views(names@);
            let k = choose|k: int| 0 <= k < ns.len() && ns[k] == m_norm@;
            let m = views(m_content@);
            lemma_content_is_some(mention@);
            assert(m == content(ns[k]));
            lemma_closest_is_full(m, ns, k);
            lemma_overlap_is_full(m, views(c_content@));
        }
    }
    proof {
        let overlap = if names@.len() == 0 {
            (0nat, 1nat)
        } else {
            jaccard_of(views(m_content@), views(c_content@))
        };
        assert(token_jaccard.num == overlap.0 as u128);
        assert(token_jaccard.den == overlap.1 as u128);
    }
    Features {
        name_jw,
        name_level: name_level(name_jw),
        alias_exact,
        token_jaccard,
        phonetic: phonetic_level(&m_content, &c_content),
        type_agree: type_level(mention_type, cand.entity_type),
        extra_tokens,
        token_subset: subset_level(&m_content, &c_content),
        acronym,
        cooc: cand.cooc,
        corroboration: cand.corroboration,
        recent: cand.recent,
    }
}

// ---------------------------------------------------------------------------------------------
// Weights

/// One unit of evidence: weights and totals are counted in millionths.
pub const UNIT: i64 = 1_000_000;

/// No weight exceeds a million units either way.
pub const WEIGHT_LIMIT: i64 = 1_000_000_000_000;

/// No threshold is further from 0 than this, so that a total can be taken from it. It is far
/// beyond every total, where all thresholds decide alike.
pub const THRESHOLD_LIMIT: i64 = 9_000_000_000_000_000_000;

/// Hand-set evidence weights (≈ log2(m/u)), in millionths.
#[derive(Clone, Debug)]
pub struct Weights {
    pub name: [i64; 4],
    pub alias_exact: i64,
    pub jaccard: [i64; 3],
    pub phonetic: [i64; 3],
    pub type_agree: [i64; 4],
    pub extra_tokens: [i64; 3],
    pub token_subset: [i64; 3],
    pub acronym_match: i64,
    pub acronym_mismatch: i64,
    pub cooc: [i64; 3],
    pub corroboration: [i64; 4],
    pub recent: i64,
    /// Ceiling on the summed runtime priors (cooc + corroboration + recency). Context can
    /// confirm a plausible name match; it must never bridge the gap from review to merge on its
    /// own.
    pub prior_cap: i64,
    pub upper: i64,
    pub lower: i64,
}

pub open spec fn is_weight(v: i64) -> bool {
    -WEIGHT_LIMIT <= v <= WEIGHT_LIMIT
}

pub open spec fn is_threshold(v: i64) -> bool {
    -THRESHOLD_LIMIT <= v <= THRESHOLD_LIMIT
}

pub open spec fn are_weights<const N: usize>(a: [i64; N]) -> bool {
    forall|i: int| 0 <= i < N ==> is_weight(#[trigger] a@[i])
}

impl Weights {
    /// The weights are within the limit, and the ceiling on the priors is not negative.
    pub open spec fn wf(self) -> bool {
        &&& are_weights(self.name)
        &&& is_weight(self.alias_exact)
        &&& are_weights(self.jaccard)
        &&& are_weights(self.phonetic)
        &&& are_weights(self.type_agree)
        &&& are_weights(self.extra_tokens)
        &&& are_weights(self.token_subset)
        &&& is_weight(self.acronym_match)
        &&& is_weight(self.acronym_mismatch)
        &&& are_weights(self.cooc)
        &&& are_weights(self.corroboration)
        &&& is_weight(self.recent)
        &&& 0 <= self.prior_cap <= WEIGHT_LIMIT
        &&& is_threshold(self.upper)
        &&& is_threshold(self.lower)
    }

    /// The default weights.
    pub open spec fn is_default(self) -> bool {
        &&& self.name@ == seq![-3_000_000i64, -500_000i64, 2_500_000i64, 4_500_000i64]
        &&& self.alias_exact == 3_000_000
        &&& self.jaccard@ == seq![-1_000_000i64, 1_000_000i64, 2_000_000i64]
        &&& self.phonetic@ == seq![-500_000i64, 500_000i64, 1_000_000i64]
        &&& self.type_agree@ == seq![-6_000_000i64, -1_500_000i64, 0i64, 1_000_000i64]
        &&& self.extra_tokens@ == seq![0i64, -1_500_000i64, -2_500_000i64]
        &&& self.token_subset@ == seq![0i64, 1_000_000i64, 2_500_000i64]
        &&& self.acronym_match == 6_000_000
        &&& self.acronym_mismatch == -3_000_000
        &&& self.cooc@ == seq![0i64, 1_500_000i64, 2_500_000i64]
        &&& self.corroboration@ == seq![0i64, 300_000i64, 700_000i64, 1_000_000i64]
        &&& self.recent == 300_000
        &&& self.prior_cap == 2_000_000
        &&& self.upper == 5_000_000
        &&& self.lower == 1_000_000
    }

    /// These weights with other thresholds where some are given: one out of range is brought to
    /// the nearest one in range.
    pub fn with_thresholds(self, upper: Option<i64>, lower: Option<i64>) -> (r: Weights)
        requires
            self.wf(),
        ensures
            r.wf(),
            r == (Weights {
                upper: match upper {
                    Some(v) => clamp_threshold(v),
                    None => self.upper,
                },
                lower: match lower {
                    Some(v) => clamp_threshold(v),
                    None => self.lower,
                },
                ..self
            }),
    {
        let mut w = self;
        if let Some(v) = upper {
            w.upper = clamped(v);
        }
        if let Some(v) = lower {
            w.lower = clamped(v);
        }
        w
    }
}

/// The threshold within the limit that is nearest to `v`.
pub open spec fn clamp_threshold(v: i64) -> i64 {
    if v < -THRESHOLD_LIMIT {
        (-THRESHOLD_LIMIT) as i64
    } else if v > THRESHOLD_LIMIT {
        THRESHOLD_LIMIT
    } else {
        v
    }
}

fn clamped(v: i64) -> (r: i64)
    ensures
        r == clamp_threshold(v),
        is_threshold(r),
{
    if v < -THRESHOLD_LIMIT {
        -THRESHOLD_LIMIT
    } else if v > THRESHOLD_LIMIT {
        THRESHOLD_LIMIT
    } else {
        v
    }
}

impl Default for Weights {
    fn default() -> (r: Self)
        ensures
            r.is_default(),
            r.wf(),
    {
        let w = Weights {
            name: [-3_000_000, -500_000, 2_500_000, 4_500_000],
            alias_exact: 3_000_000,
            jaccard: [-1_000_000, 1_000_000, 2_000_000],
            phonetic: [-500_000, 500_000, 1_000_000],
            type_agree: [-6_000_000, -1_500_000, 0, 1_000_000],
            extra_tokens: [0, -1_500_000, -2_500_000],
            token_subset: [0, 1_000_000, 2_500_000],
            acronym_match: 6_000_000,
            acronym_mismatch: -3_000_000,
            cooc: [0, 1_500_000, 2_500_000],
            corroboration: [0, 300_000, 700_000, 1_000_000],
            recent: 300_000,
            prior_cap: 2_000_000,
            upper: 5_000_000,
            lower: 1_000_000,
        };
        assert(w.name@ =~= seq![-3_000_000i64, -500_000i64, 2_500_000i64, 4_500_000i64]);
        assert(w.jaccard@ =~= seq![-1_000_000i64, 1_000_000i64, 2_000_000i64]);
        assert(w.phonetic@ =~= seq![-500_000i64, 500_000i64, 1_000_000i64]);
        assert(w.type_agree@ =~= seq![-6_000_000i64, -1_500_000i64, 0i64, 1_000_000i64]);
        assert(w.extra_tokens@ =~= seq![0i64, -1_500_000i64, -2_500_000i64]);
        assert(w.token_subset@ =~= seq![0i64, 1_000_000i64, 2_500_000i64]);
        assert(w.cooc@ =~= seq![0i64, 1_500_000i64, 2_500_000i64]);
        assert(w.corroboration@ =~= seq![0i64, 300_000i64, 700_000i64, 1_000_000i64]);
        w
    }
}

/// What becomes of a mention.
#[derive(Clone, Copy, Debug, PartialEq, Eq, Structural)]
pub enum Decision {
    Merge,
    Review,
    New,
}

/// Merge from the upper threshold on, new below the lower one, review between them.
pub open spec fn decision(total: int, w: Weights) -> Decision {
    if total >= w.upper {
        Decision::Merge
    } else if total < w.lower {
        Decision::New
    } else {
        Decision::Review
    }
}

pub fn decide(total: i64, w: &Weights) -> (r: Decision)
    ensures
        r == decision(total as int, *w),
{
    if total >= w.upper {
        Decision::Merge
    } else if total < w.lower {
        Decision::New
    } else {
        Decision::Review
    }
}

// ---------------------------------------------------------------------------------------------
// Scores

/// A match score and what it is made of.
#[derive(Clone, Debug)]
pub struct MatchScore {
    pub total: i64,
    /// (feature, weight applied): the "why" behind the total, kept for review and provenance.
    pub contributions: Vec<(String, i64)>,
    pub features: Features,
}

/// What a list of contributions holds.
pub open spec fn parts(c: Seq<(String, i64)>) -> Seq<(Seq<char>, int)> {
    Seq::new(c.len(), |i: int| (c[i].0@, c[i].1 as int))
}

/// The sum of the contributions.
pub open spec fn sum_of(c: Seq<(Seq<char>, int)>) -> int
    decreases c.len(),
{
    if c.len() == 0 {
        0
    } else {
        sum_of(c.drop_last()) + c.last().1
    }
}

/// What a score holds.
#[verifier::ext_equal]
pub struct MatchModel {
    pub total: i64,
    pub contributions: Seq<(Seq<char>, int)>,
    pub features: Features,
}

impl View for MatchScore {
    type V = MatchModel;

    open spec fn view(&self) -> MatchModel {
        MatchModel {
            total: self.total,
            contributions: parts(self.contributions@),
            features: self.features,
        }
    }
}

impl MatchScore {
    /// The total is the sum of what is listed.
    pub open spec fn explained(self) -> bool {
        self.total == sum_of(parts(self.contributions@))
    }
}

/// The contributions with one more, unless it weighs nothing.
pub open spec fn with_weight(c: Seq<(Seq<char>, int)>, name: Seq<char>, v: int) -> Seq<
    (Seq<char>, int),
> {
    if v == 0 {
        c
    } else {
        c.push((name, v))
    }
}

/// Which name weight applies. Jaro-Winkler's prefix bonus makes "circle" close to "circle k":
/// where the other side has further content tokens, the top level is not trusted. Where one
/// side is contained in the other, a low similarity is explained by that, and the lowest level
/// does not apply.
pub open spec fn name_index(f: Features) -> int {
    let capped: int = if f.extra_tokens > 0 && f.name_level > 2 {
        2
    } else {
        f.name_level as int
    };
    if f.token_subset >= 1 && capped < 1 {
        1
    } else {
        capped
    }
}

pub open spec fn jaccard_index(f: Features) -> int {
    if f.token_jaccard.reaches(4, 5) {
        2
    } else if f.token_jaccard.reaches(1, 2) {
        1
    } else {
        0
    }
}

pub open spec fn extra_index(f: Features) -> int {
    if f.extra_tokens > 2 {
        2
    } else {
        f.extra_tokens as int
    }
}

/// What the names and the types alone contribute. Where the initials match, string similarity
/// means nothing ("FTC" and "Federal Trade Commission" share no string signal), and the
/// acronym stands for it.
pub open spec fn evidence(f: Features, w: Weights) -> Seq<(Seq<char>, int)> {
    let names = if f.acronym == 1 {
        with_weight(seq![], "acronym_match"@, w.acronym_match as int)
    } else {
        let c = with_weight(seq![], "name_jw"@, w.name@[name_index(f)] as int);
        let c = if f.alias_exact {
            with_weight(c, "alias_exact"@, w.alias_exact as int)
        } else {
            c
        };
        let c = with_weight(c, "token_jaccard"@, w.jaccard@[jaccard_index(f)] as int);
        let c = with_weight(c, "phonetic"@, w.phonetic@[f.phonetic as int] as int);
        let c = with_weight(c, "extra_tokens"@, w.extra_tokens@[extra_index(f)] as int);
        let c = with_weight(c, "token_subset"@, w.token_subset@[f.token_subset as int] as int);
        if f.acronym == -1 {
            with_weight(c, "acronym_mismatch"@, w.acronym_mismatch as int)
        } else {
            c
        }
    };
    with_weight(names, "type_agree"@, w.type_agree@[f.type_agree as int] as int)
}

pub open spec fn cooc_index(f: Features) -> int {
    if f.cooc.reaches(1, 2) {
        2
    } else if f.cooc.num > 0 {
        1
    } else {
        0
    }
}

pub open spec fn corroboration_index(f: Features) -> int {
    if f.corroboration >= 8 {
        3
    } else if f.corroboration >= 3 {
        2
    } else if f.corroboration >= 1 {
        1
    } else {
        0
    }
}

/// What the context would contribute without a ceiling: co-occurrence, corroboration, recency.
pub open spec fn raw_priors(f: Features, w: Weights) -> (int, int, int) {
    (
        w.cooc@[cooc_index(f)] as int,
        w.corroboration@[corroboration_index(f)] as int,
        if f.recent {
            w.recent as int
        } else {
            0
        },
    )
}

/// The three priors, scaled down in proportion where their sum exceeds the ceiling, so that the
/// scaled ones sum to the ceiling: the bounds between the three shares are rounded down.
pub open spec fn scaled_priors(p: (int, int, int), cap: int) -> (int, int, int) {
    let raw = p.0 + p.1 + p.2;
    if raw > cap {
        let first = p.0 * cap / raw;
        let second = (p.0 + p.1) * cap / raw;
        (first, second - first, cap - second)
    } else {
        p
    }
}

/// The ceiling on the priors of a pair with so much evidence. Where names and types alone are not
/// worth a merge, context does not bridge what is missing: it stays below the upper threshold.
pub open spec fn ceiling(e: int, w: Weights) -> int {
    if e < w.upper && w.upper - 1 - e < w.prior_cap {
        w.upper - 1 - e
    } else {
        w.prior_cap as int
    }
}

/// All contributions. Context counts only where names and types alone are at least worth a
/// review: it cannot rescue a name that does not match, and it cannot carry one that is worth a
/// review to a merge.
pub open spec fn contributions_of(f: Features, w: Weights) -> Seq<(Seq<char>, int)> {
    let e = evidence(f, w);
    if sum_of(e) >= w.lower {
        let p = scaled_priors(raw_priors(f, w), ceiling(sum_of(e), w));
        let c = with_weight(e, "cooc"@, p.0);
        let c = with_weight(c, "corroboration"@, p.1);
        with_weight(c, "recent"@, p.2)
    } else {
        e
    }
}

/// The score of what was observed.
pub open spec fn match_of(f: Features, w: Weights) -> MatchModel {
    MatchModel {
        total: sum_of(contributions_of(f, w)) as i64,
        contributions: contributions_of(f, w),
        features: f,
    }
}

pub proof fn lemma_with_weight(c: Seq<(Seq<char>, int)>, name: Seq<char>, v: int)
    ensures
        sum_of(with_weight(c, name, v)) == sum_of(c) + v,
{
    assert(c.push((name, v)).drop_last() =~= c);
}

/// Context contributes exactly the smaller of its raw sum and the ceiling, and nothing where
/// names and types alone are not worth a review. The ceiling is never above that of the weights.
pub proof fn law_context_is_capped(f: Features, w: Weights)
    requires
        w.wf(),
    ensures
        ({
            let (a, b, c) = raw_priors(f, w);
            let gain = sum_of(contributions_of(f, w)) - sum_of(evidence(f, w));
            let cap = ceiling(sum_of(evidence(f, w)), w);
            &&& 0 <= cap <= w.prior_cap
            &&& sum_of(evidence(f, w)) >= w.lower ==> gain == if a + b + c > cap {
                cap
            } else {
                a + b + c
            }
            &&& sum_of(evidence(f, w)) < w.lower ==> gain == 0
            &&& gain <= cap
        }),
{
    let e = evidence(f, w);
    if sum_of(e) >= w.lower {
        let p = scaled_priors(raw_priors(f, w), ceiling(sum_of(e), w));
        let c1 = with_weight(e, "cooc"@, p.0);
        let c2 = with_weight(c1, "corroboration"@, p.1);
        lemma_with_weight(e, "cooc"@, p.0);
        lemma_with_weight(c1, "corroboration"@, p.1);
        lemma_with_weight(c2, "recent"@, p.2);
    }
}

/// Context speaks for the pair, or not at all.
pub open spec fn context_favors(f: Features, w: Weights) -> bool {
    let (a, b, c) = raw_priors(f, w);
    a + b + c >= 0
}

/// Context confirms, it does not decide: it never rescues a name that is not worth a review by
/// itself, and it never carries one that is worth a review to a merge. Where it speaks for the
/// pair, what is worth a review stays so, and what is worth a merge does.
pub proof fn law_context_confirms_only(f: Features, w: Weights)
    requires
        w.wf(),
    ensures
        ({
            let e = sum_of(evidence(f, w));
            let d = decision(sum_of(contributions_of(f, w)), w);
            &&& e < w.upper ==> d != Decision::Merge
            &&& e < w.lower ==> d == decision(e, w)
            &&& context_favors(f, w) && w.lower <= e < w.upper ==> d == Decision::Review
            &&& context_favors(f, w) && w.upper <= e ==> d == Decision::Merge
        }),
{
    law_context_is_capped(f, w);
}

/// With the default weights context always speaks for the pair or not at all.
pub proof fn law_default_context_favors(f: Features, w: Weights)
    requires
        w.is_default(),
    ensures
        context_favors(f, w),
{
}

/// With the default weights, a mention that is one of the candidate's names and does not
/// conflict with its type is merged.
pub proof fn law_exact_name_merges(f: Features, w: Weights)
    requires
        w.is_default(),
        w.wf(),
        f.wf(),
        f.alias_exact,
        f.name_level == 3,
        f.token_jaccard.reaches(1, 1),
        f.extra_tokens == 0,
        f.acronym == 0,
        f.type_agree >= 1,
    ensures
        decision(sum_of(contributions_of(f, w)), w) == Decision::Merge,
{
    assert(f.token_jaccard.reaches(4, 5));
    let c0: Seq<(Seq<char>, int)> = seq![];
    let c1 = with_weight(c0, "name_jw"@, w.name@[name_index(f)] as int);
    lemma_with_weight(c0, "name_jw"@, w.name@[name_index(f)] as int);
    let c2 = with_weight(c1, "alias_exact"@, w.alias_exact as int);
    lemma_with_weight(c1, "alias_exact"@, w.alias_exact as int);
    let c3 = with_weight(c2, "token_jaccard"@, w.jaccard@[jaccard_index(f)] as int);
    lemma_with_weight(c2, "token_jaccard"@, w.jaccard@[jaccard_index(f)] as int);
    let c4 = with_weight(c3, "phonetic"@, w.phonetic@[f.phonetic as int] as int);
    lemma_with_weight(c3, "phonetic"@, w.phonetic@[f.phonetic as int] as int);
    let c5 = with_weight(c4, "extra_tokens"@, w.extra_tokens@[extra_index(f)] as int);
    lemma_with_weight(c4, "extra_tokens"@, w.extra_tokens@[extra_index(f)] as int);
    let c6 = with_weight(c5, "token_subset"@, w.token_subset@[f.token_subset as int] as int);
    lemma_with_weight(c5, "token_subset"@, w.token_subset@[f.token_subset as int] as int);
    lemma_with_weight(c6, "type_agree"@, w.type_agree@[f.type_agree as int] as int);
    assert(evidence(f, w) == with_weight(
        c6,
        "type_agree"@,
        w.type_agree@[f.type_agree as int] as int,
    ));
    law_context_is_capped(f, w);
}

/// A contribution is never larger than this.
pub const SHARE_LIMIT: i64 = 4_000_000_000_000;

/// No total is larger than this.
pub const TOTAL_LIMIT: i64 = 48_000_000_000_000;

spec fn modest(c: Seq<(String, i64)>, n: int) -> bool {
    &&& c.len() <= n
    &&& forall|i: int| 0 <= i < c.len() ==> -SHARE_LIMIT <= (#[trigger] c[i]).1 <= SHARE_LIMIT
}

fn put(c: &mut Vec<(String, i64)>, name: &str, v: i64, Ghost(n): Ghost<int>)
    requires
        modest(old(c)@, n),
        -SHARE_LIMIT <= v <= SHARE_LIMIT,
    ensures
        parts(final(c)@) == with_weight(parts(old(c)@), name@, v as int),
        modest(final(c)@, n + 1),
{
    if v != 0 {
        c.push((name.to_owned(), v));
        assert(parts(c@) =~= parts(old(c)@).push((name@, v as int)));
    }
}

fn total_of(c: &Vec<(String, i64)>) -> (r: i64)
    requires
        modest(c@, 12),
    ensures
        r == sum_of(parts(c@)),
        -TOTAL_LIMIT <= r <= TOTAL_LIMIT,
{
    let mut total: i64 = 0;
    let mut i: usize = 0;
    assert(parts(c@).take(0) =~= seq![]);
    while i < c.len()
        invariant
            i <= c@.len(),
            modest(c@, 12),
            total == sum_of(parts(c@).take(i as int)),
            -4_000_000_000_000 * i <= total <= 4_000_000_000_000 * i,
        decreases c.len() - i,
    {
        assert(parts(c@).take(i + 1).drop_last() =~= parts(c@).take(i as int));
        assert(-SHARE_LIMIT <= c@[i as int].1 <= SHARE_LIMIT);
        total += c[i].1;
        i += 1;
    }
    assert(parts(c@).take(i as int) =~= parts(c@));
    total
}

/// The quotient rounded down.
fn floor_div(n: i128, d: i128) -> (r: i128)
    requires
        d > 0,
        -0x1_0000_0000_0000_0000_0000_0000 < n < 0x1_0000_0000_0000_0000_0000_0000,
        d < 0x1_0000_0000_0000_0000_0000_0000,
    ensures
        r == n as int / d as int,
{
    if n >= 0 {
        let q = (n as u128) / (d as u128);
        assert(q <= n as u128) by (nonlinear_arith)
            requires
                q == (n as u128) / (d as u128),
                d > 0,
                n >= 0,
        ;
        q as i128
    } else {
        let m = (-n) as u128;
        let k = d as u128;
        let q = (m + (k - 1)) / k;
        proof {
            let qi = q as int;
            let r = qi * (k as int) - (m as int);
            vstd::arithmetic::div_mod::lemma_fundamental_div_mod(m + (k - 1), k as int);
            vstd::arithmetic::div_mod::lemma_mod_bound(m + (k - 1), k as int);
            assert(k * qi == qi * k) by (nonlinear_arith);
            assert(0 <= r < k);
            assert(n as int == (-qi) * (d as int) + r) by (nonlinear_arith)
                requires
                    r == qi * (k as int) - (m as int),
                    m == -n,
                    k == d,
            ;
            vstd::arithmetic::div_mod::lemma_fundamental_div_mod_converse(
                n as int,
                d as int,
                -qi,
                r,
            );
            assert(qi <= m + (k - 1)) by (nonlinear_arith)
                requires
                    qi * (k as int) <= m + (k - 1),
                    k >= 1,
                    qi >= 0,
            ;
        }
        -(q as i128)
    }
}

/// The three priors under the ceiling.
fn scale(p: (i64, i64, i64), cap: i64) -> (r: (i64, i64, i64))
    requires
        is_weight(p.0),
        is_weight(p.1),
        is_weight(p.2),
        0 <= cap <= WEIGHT_LIMIT,
    ensures
        (r.0 as int, r.1 as int, r.2 as int) == scaled_priors(
            (p.0 as int, p.1 as int, p.2 as int),
            cap as int,
        ),
        -SHARE_LIMIT <= r.0 <= SHARE_LIMIT,
        -SHARE_LIMIT <= r.1 <= SHARE_LIMIT,
        -SHARE_LIMIT <= r.2 <= SHARE_LIMIT,
{
    let raw: i64 = p.0 + p.1 + p.2;
    if raw > cap {
        proof {
            lemma_share_bounds(p.0 as int, cap as int, raw as int, WEIGHT_LIMIT as int);
            lemma_share_bounds(p.0 + p.1, cap as int, raw as int, 2 * WEIGHT_LIMIT);
        }
        let first = floor_div(p.0 as i128 * cap as i128, raw as i128) as i64;
        let second = floor_div((p.0 + p.1) as i128 * cap as i128, raw as i128) as i64;
        (first, second - first, cap - second)
    } else {
        p
    }
}

proof fn lemma_share_bounds(p: int, cap: int, raw: int, limit: int)
    requires
        -limit <= p <= limit,
        0 <= cap < raw,
        cap <= WEIGHT_LIMIT,
        0 <= limit <= 2 * WEIGHT_LIMIT,
    ensures
        -limit <= p * cap / raw <= limit,
        -2_000_000_000_000_000_000_000_000 <= p * cap <= 2_000_000_000_000_000_000_000_000,
{
    assert(-2_000_000_000_000_000_000_000_000 <= p * cap <= 2_000_000_000_000_000_000_000_000)
        by (nonlinear_arith)
        requires
            -2_000_000_000_000 <= p <= 2_000_000_000_000,
            0 <= cap <= 1_000_000_000_000,
    ;
    assert(p * cap <= limit * raw && -limit * raw <= p * cap) by (nonlinear_arith)
        requires
            -limit <= p <= limit,
            0 <= cap < raw,
            0 <= limit,
    ;
    vstd::arithmetic::div_mod::lemma_fundamental_div_mod(p * cap, raw);
    vstd::arithmetic::div_mod::lemma_mod_bound(p * cap, raw);
    let q = p * cap / raw;
    assert(q <= limit) by (nonlinear_arith)
        requires
            raw * q <= limit * raw,
            raw > 0,
    ;
    assert(q >= -limit) by (nonlinear_arith)
        requires
            raw * q > -limit * raw - raw,
            raw > 0,
    ;
}

/// Weighs what was observed of a mention and a candidate.
pub fn weigh(f: &Features, w: &Weights) -> (r: MatchScore)
    requires
        f.wf(),
        w.wf(),
    ensures
        r@ == match_of(*f, *w),
        r.explained(),
        -TOTAL_LIMIT <= r.total <= TOTAL_LIMIT,
{
    let mut c: Vec<(String, i64)> = Vec::new();
    assert(parts(c@) =~= seq![]);
    if f.acronym == 1 {
        put(&mut c, "acronym_match", w.acronym_match, Ghost(0));
    } else {
        let mut name_idx: usize = f.name_level as usize;
        if f.extra_tokens > 0 && name_idx > 2 {
            name_idx = 2;
        }
        if f.token_subset >= 1 && name_idx < 1 {
            name_idx = 1;
        }
        assert(is_weight(w.name@[name_index(*f)]));
        put(&mut c, "name_jw", w.name[name_idx], Ghost(0));
        if f.alias_exact {
            put(&mut c, "alias_exact", w.alias_exact, Ghost(1));
        }
        let jaccard_idx: usize = if f.token_jaccard.at_least(Ratio { num: 4, den: 5 }) {
            2
        } else if f.token_jaccard.at_least(Ratio { num: 1, den: 2 }) {
            1
        } else {
            0
        };
        assert(is_weight(w.jaccard@[jaccard_index(*f)]));
        put(&mut c, "token_jaccard", w.jaccard[jaccard_idx], Ghost(2));
        assert(is_weight(w.phonetic@[f.phonetic as int]));
        put(&mut c, "phonetic", w.phonetic[f.phonetic as usize], Ghost(3));
        let extra_idx: usize = if f.extra_tokens > 2 {
            2
        } else {
            f.extra_tokens as usize
        };
        assert(is_weight(w.extra_tokens@[extra_index(*f)]));
        put(&mut c, "extra_tokens", w.extra_tokens[extra_idx], Ghost(4));
        assert(is_weight(w.token_subset@[f.token_subset as int]));
        put(&mut c, "token_subset", w.token_subset[f.token_subset as usize], Ghost(5));
        if f.acronym == -1 {
            put(&mut c, "acronym_mismatch", w.acronym_mismatch, Ghost(6));
        }
    }
    assert(is_weight(w.type_agree@[f.type_agree as int]));
    put(&mut c, "type_agree", w.type_agree[f.type_agree as usize], Ghost(7));
    assert(parts(c@) == evidence(*f, *w));

    let evidence = total_of(&c);
    if evidence >= w.lower {
        let cooc_idx: usize = if f.cooc.at_least(Ratio { num: 1, den: 2 }) {
            2
        } else if f.cooc.num > 0 {
            1
        } else {
            0
        };
        let corroboration_idx: usize = if f.corroboration >= 8 {
            3
        } else if f.corroboration >= 3 {
            2
        } else if f.corroboration >= 1 {
            1
        } else {
            0
        };
        let recent: i64 = if f.recent {
            w.recent
        } else {
            0
        };
        assert(is_weight(w.cooc@[cooc_index(*f)]));
        assert(is_weight(w.corroboration@[corroboration_index(*f)]));
        let cap: i64 = if evidence < w.upper && w.upper - 1 - evidence < w.prior_cap {
            w.upper - 1 - evidence
        } else {
            w.prior_cap
        };
        let (first, second, third) = scale(
            (w.cooc[cooc_idx], w.corroboration[corroboration_idx], recent),
            cap,
        );
        put(&mut c, "cooc", first, Ghost(8));
        put(&mut c, "corroboration", second, Ghost(9));
        put(&mut c, "recent", third, Ghost(10));
    }
    let total = total_of(&c);
    MatchScore { total, contributions: c, features: *f }
}

/// Scores a mention against a candidate.
pub fn score(mention: &str, mention_type: Option<&str>, cand: &Candidate, w: &Weights) -> (r:
    MatchScore)
    requires
        cand.cooc.wf(),
        w.wf(),
    ensures
        r.features.wf(),
        r@ == match_of(
            features_of(
                mention@,
                crate::text::opt_str(mention_type),
                cand.canonical@,
                views(cand.aliases@),
                cand.entity_type@,
                (cand.cooc, cand.corroboration, cand.recent),
            ),
            *w,
        ),
        r.explained(),
        -TOTAL_LIMIT <= r.total <= TOTAL_LIMIT,
        w.is_default() && r.features.alias_exact && r.features.type_agree >= 2 ==> decision(
            r.total as int,
            *w,
        ) == Decision::Merge,
        sum_of(evidence(r.features, *w)) < w.upper ==> decision(r.total as int, *w)
            != Decision::Merge,
        w.is_default() && goes_by(mention@, cand.canonical@, views(cand.aliases@))
            && !types_conflict(crate::text::opt_str(mention_type), cand.entity_type@) ==> r.total
            >= w.upper,
        w.is_default() && types_conflict(crate::text::opt_str(mention_type), cand.entity_type@)
            && has_distinct_tokens(mention@) && has_distinct_tokens(cand.canonical@) && (forall|
            j: int,
        |
            0 <= j < cand.aliases@.len() ==> has_distinct_tokens(
                #[trigger] views(cand.aliases@)[j],
            )) ==> r.total < w.upper,
{
    let f = compare(mention, mention_type, cand);
    proof {
        law_context_confirms_only(f, *w);
        let label = crate::text::opt_str(mention_type);
        let context = (cand.cooc, cand.corroboration, cand.recent);
        let names = views(cand.aliases@);
        law_exact_match_is_by_name(
            mention@,
            label,
            cand.canonical@,
            names,
            cand.entity_type@,
            context,
        );
        if label is Some {
            law_types_agree(label->0, cand.entity_type@);
        }
        if w.is_default() && f.alias_exact && f.type_agree >= 1 {
            law_exact_name_merges(f, *w);
        }
        if w.is_default() && types_conflict(label, cand.entity_type@) && has_distinct_tokens(
            mention@,
        ) && has_distinct_tokens(cand.canonical@) && (forall|j: int|
            0 <= j < names.len() ==> has_distinct_tokens(#[trigger] names[j])) {
            law_conflicting_types_never_merge(
                mention@,
                label,
                cand.canonical@,
                names,
                cand.entity_type@,
                context,
                *w,
            );
        }
    }
    weigh(&f, w)
}

} // verus!
