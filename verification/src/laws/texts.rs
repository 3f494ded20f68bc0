//! Texts and numbers: what the readings and writings of them keep.

use vstd::prelude::*;
use vstd::utf8::*;

use crate::double::Double;
use crate::models::{feed_date, plain_date, weekday_date, without_weekday};
use crate::text::{
    decimal, digit, digits_value, flat, head, integer_of, is_ascii_digit, is_digits, is_space,
    joined, natural_of, occurs, occurs_at, pieces, pieces_from, replaced, short_form, solid, trim,
    trim_end, trim_start, words, words_from,
};

verus! {

// ---------------------------------------------------------------------------------------------
// Blanks

/// A text without its blanks.
pub open spec fn packed(s: Seq<char>) -> Seq<char>
    decreases s.len(),
{
    if s.len() == 0 {
        seq![]
    } else if is_space(s[0]) {
        packed(s.drop_first())
    } else {
        seq![s[0]] + packed(s.drop_first())
    }
}

proof fn lemma_flat_front(x: Seq<char>, parts: Seq<Seq<char>>)
    ensures
        flat(seq![x] + parts) == x + flat(parts),
    decreases parts.len(),
{
    let all = seq![x] + parts;
    if parts.len() == 0 {
        assert(all =~= seq![x]);
        assert(all.drop_last() =~= Seq::<Seq<char>>::empty());
        assert(flat(Seq::<Seq<char>>::empty()) == Seq::<char>::empty());
        assert(all.last() == x);
        assert(Seq::<char>::empty() + x =~= x);
        assert(x + flat(parts) =~= x);
    } else {
        lemma_flat_front(x, parts.drop_last());
        assert(all.drop_last() =~= seq![x] + parts.drop_last());
        assert(all.last() == parts.last());
        assert(flat(all) =~= x + flat(parts));
    }
}

proof fn lemma_words_hold_all(cur: Seq<char>, s: Seq<char>)
    ensures
        flat(words_from(cur, s)) == cur + packed(s),
    decreases s.len(),
{
    if s.len() == 0 {
        if cur.len() > 0 {
            assert(seq![cur] =~= seq![cur] + Seq::<Seq<char>>::empty());
            lemma_flat_front(cur, seq![]);
        }
        assert(cur + packed(s) =~= cur);
    } else {
        let rest = s.drop_first();
        if !is_space(s[0]) {
            lemma_words_hold_all(cur.push(s[0]), rest);
            assert(cur.push(s[0]) + packed(rest) =~= cur + packed(s));
        } else if cur.len() == 0 {
            lemma_words_hold_all(cur, rest);
        } else {
            lemma_words_hold_all(seq![], rest);
            lemma_flat_front(cur, words_from(seq![], rest));
            assert(Seq::<char>::empty() + packed(rest) =~= packed(rest));
        }
    }
}

/// The words of a text hold every character of it but the blanks, in order, and are not empty.
pub proof fn law_words_hold_the_text(s: Seq<char>)
    ensures
        flat(words(s)) == packed(s),
        forall|i: int| 0 <= i < words(s).len() ==> (#[trigger] words(s)[i]).len() > 0 && solid(
            words(s)[i],
        ),
        s.len() > 0 && solid(s) ==> words(s) == seq![s],
{
    lemma_words_hold_all(seq![], s);
    assert(Seq::<char>::empty() + packed(s) =~= packed(s));
    crate::text::lemma_words(s);
    if s.len() > 0 && solid(s) {
        lemma_solid(seq![], s);
        assert(Seq::<char>::empty() + s =~= s);
    }
}

proof fn lemma_solid(cur: Seq<char>, s: Seq<char>)
    requires
        solid(s),
        (cur + s).len() > 0,
    ensures
        words_from(cur, s) == seq![cur + s],
    decreases s.len(),
{
    if s.len() == 0 {
        assert(cur + s =~= cur);
    } else {
        let rest = s.drop_first();
        assert forall|i: int| 0 <= i < rest.len() implies !is_space(#[trigger] rest[i]) by {
            assert(rest[i] == s[i + 1]);
        }
        assert(!is_space(s[0]));
        lemma_solid(cur.push(s[0]), rest);
        assert(cur.push(s[0]) + rest =~= cur + s);
    }
}

proof fn lemma_trim_start(s: Seq<char>)
    ensures
        trim_start(s).len() <= s.len(),
        trim_start(s) == s.skip(s.len() - trim_start(s).len()),
        forall|i: int| 0 <= i < s.len() - trim_start(s).len() ==> is_space(#[trigger] s[i]),
    decreases s.len(),
{
    if s.len() > 0 && is_space(s[0]) {
        let rest = s.drop_first();
        lemma_trim_start(rest);
        let n = rest.len() - trim_start(rest).len();
        assert(rest.skip(n) =~= s.skip(n + 1));
        assert forall|i: int| 0 <= i < n + 1 implies is_space(#[trigger] s[i]) by {
            if i > 0 {
                assert(rest[i - 1] == s[i]);
            }
        }
    } else {
        assert(s.skip(0) =~= s);
    }
}

proof fn lemma_trim_end(s: Seq<char>)
    ensures
        trim_end(s).len() <= s.len(),
        trim_end(s) == s.take(trim_end(s).len() as int),
        forall|i: int| trim_end(s).len() <= i < s.len() ==> is_space(#[trigger] s[i]),
    decreases s.len(),
{
    if s.len() > 0 && is_space(s.last()) {
        let most = s.drop_last();
        lemma_trim_end(most);
        let n = trim_end(most).len() as int;
        assert(most.take(n) =~= s.take(n));
        assert forall|i: int| n <= i < s.len() implies is_space(#[trigger] s[i]) by {
            if i < most.len() {
                assert(most[i] == s[i]);
            }
        }
    } else {
        assert(s.take(s.len() as int) =~= s);
    }
}

/// Trimming takes the blanks at both ends and nothing else.
pub proof fn law_trim_takes_outer_blanks(s: Seq<char>)
    ensures
        exists|i: int, j: int|
            #![trigger s.subrange(i, j)]
            0 <= i <= j <= s.len() && trim(s) == s.subrange(i, j) && (forall|k: int|
                (0 <= k < i || j <= k < s.len()) ==> is_space(#[trigger] s[k])),
        trim(s).len() > 0 ==> !is_space(trim(s)[0]) && !is_space(trim(s).last()),
{
    let t = trim_start(s);
    lemma_trim_start(s);
    lemma_trim_end(t);
    crate::text::lemma_trim_keeps(s);
    let i = s.len() - t.len();
    let j = i + trim_end(t).len();
    assert(trim(s) =~= s.subrange(i, j));
    assert forall|k: int| (0 <= k < i || j <= k < s.len()) implies is_space(#[trigger] s[k]) by {
        if k >= j {
            assert(t[k - i] == s[k]);
        }
    }
}

// ---------------------------------------------------------------------------------------------
// Parts

proof fn lemma_joined_front(x: Seq<char>, parts: Seq<Seq<char>>, sep: Seq<char>)
    requires
        parts.len() > 0,
    ensures
        joined(seq![x] + parts, sep) == x + sep + joined(parts, sep),
    decreases parts.len(),
{
    let all = seq![x] + parts;
    if parts.len() == 1 {
        assert(all.drop_last() =~= seq![x]);
        assert(all.last() == parts[0]);
        assert(joined(seq![x], sep) == x);
    } else {
        lemma_joined_front(x, parts.drop_last(), sep);
        assert(all.drop_last() =~= seq![x] + parts.drop_last());
        assert(all.last() == parts.last());
        assert(joined(all, sep) =~= x + sep + joined(parts, sep));
    }
}

proof fn lemma_pieces_join(cur: Seq<char>, s: Seq<char>, sep: char)
    ensures
        pieces_from(cur, s, sep).len() > 0,
        joined(pieces_from(cur, s, sep), seq![sep]) == cur + s,
    decreases s.len(),
{
    if s.len() == 0 {
        assert(cur + s =~= cur);
    } else {
        let rest = s.drop_first();
        if s[0] == sep {
            lemma_pieces_join(seq![], rest, sep);
            lemma_joined_front(cur, pieces_from(seq![], rest, sep), seq![sep]);
            assert(Seq::<char>::empty() + rest =~= rest);
            assert(cur + seq![sep] + rest =~= cur + s);
        } else {
            lemma_pieces_join(cur.push(s[0]), rest, sep);
            assert(cur.push(s[0]) + rest =~= cur + s);
        }
    }
}

proof fn lemma_pieces_part(cur: Seq<char>, s: Seq<char>, sep: char)
    requires
        !cur.contains(sep),
    ensures
        forall|i: int|
            0 <= i < pieces_from(cur, s, sep).len() ==> !(#[trigger] pieces_from(
                cur,
                s,
                sep,
            )[i]).contains(sep),
    decreases s.len(),
{
    if s.len() == 0 {
        assert(pieces_from(cur, s, sep) =~= seq![cur]);
        assert(pieces_from(cur, s, sep)[0] == cur);
    } else {
        let rest = s.drop_first();
        let all = pieces_from(cur, s, sep);
        if s[0] == sep {
            assert(!Seq::<char>::empty().contains(sep));
            lemma_pieces_part(seq![], rest, sep);
            let tail = pieces_from(seq![], rest, sep);
            assert forall|i: int| 0 <= i < all.len() implies !(#[trigger] all[i]).contains(sep) by {
                if i > 0 {
                    assert(all[i] == tail[i - 1]);
                } else {
                    assert(all[0] == cur);
                }
            }
        } else {
            crate::laws::lists::lemma_push_has(cur, s[0], sep);
            lemma_pieces_part(cur.push(s[0]), rest, sep);
            assert(all == pieces_from(cur.push(s[0]), rest, sep));
        }
    }
}

/// The parts of a text, put together again with the separator, are the text, and none of them holds
/// the separator.
pub proof fn law_parts_make_the_text(s: Seq<char>, sep: char)
    ensures
        joined(pieces(s, sep), seq![sep]) == s,
        pieces(s, sep).len() > 0,
        forall|i: int|
            0 <= i < pieces(s, sep).len() ==> !(#[trigger] pieces(s, sep)[i]).contains(sep),
{
    lemma_pieces_join(seq![], s, sep);
    assert(Seq::<char>::empty() + s =~= s);
    assert(!Seq::<char>::empty().contains(sep));
    lemma_pieces_part(seq![], s, sep);
}

proof fn lemma_not_replaced(s: Seq<char>, from: Seq<char>, to: Seq<char>)
    requires
        !occurs(s, from),
    ensures
        replaced(s, from, to) == s,
    decreases s.len(),
{
    if from.len() > 0 && s.len() >= from.len() {
        assert(!occurs_at(s, from, 0));
        let rest = s.drop_first();
        assert(!occurs(rest, from)) by {
            if occurs(rest, from) {
                let i = choose|i: int| occurs_at(rest, from, i);
                assert(rest.subrange(i, i + from.len()) =~= s.subrange(i + 1, i + 1 + from.len()));
                assert(occurs_at(s, from, i + 1));
            }
        }
        lemma_not_replaced(rest, from, to);
        assert(seq![s[0]] + rest =~= s);
    }
}

/// Replacing leaves a text as it is that does not hold what is replaced, and puts the other text in
/// the place of what it begins with.
pub proof fn law_replacing(s: Seq<char>, from: Seq<char>, to: Seq<char>)
    requires
        from.len() > 0,
    ensures
        !occurs(s, from) ==> replaced(s, from, to) == s,
        replaced(from + s, from, to) == to + replaced(s, from, to),
{
    if !occurs(s, from) {
        lemma_not_replaced(s, from, to);
    }
    let all = from + s;
    assert(all.subrange(0, from.len() as int) =~= from);
    assert(all.skip(from.len() as int) =~= s);
}

proof fn lemma_head(s: Seq<char>, n: int)
    requires
        0 <= n <= s.len(),
        forall|i: int| 0 <= i < n ==> #[trigger] s[i] <= '\u{7f}',
    ensures
        head(s, n) == Some(s.take(n)),
    decreases n,
{
    if n > 0 {
        let rest = s.drop_first();
        assert(s[0] <= '\u{7f}');
        assert forall|i: int| 0 <= i < n - 1 implies #[trigger] rest[i] <= '\u{7f}' by {
            assert(rest[i] == s[i + 1]);
        }
        lemma_head(rest, n - 1);
        assert(seq![s[0]] + rest.take(n - 1) =~= s.take(n));
    } else {
        assert(s.take(0) =~= seq![]);
    }
}

/// The short form of a text is its beginning, as long as that is plain; so the day of a time is its
/// first ten characters.
pub proof fn law_short_form_is_the_beginning(s: Seq<char>, n: int)
    requires
        0 <= n <= s.len(),
        forall|i: int| 0 <= i < n ==> #[trigger] s[i] <= '\u{7f}',
    ensures
        short_form(s, n) == s.take(n),
        n == 10 ==> crate::auth::day_of(s) == s.take(10),
{
    lemma_head(s, n);
}

// ---------------------------------------------------------------------------------------------
// Numbers

proof fn lemma_decimal(n: nat)
    ensures
        is_digits(decimal(n)),
        digits_value(decimal(n)) == n,
    decreases n,
{
    reveal_with_fuel(digits_value, 2);
    if n < 10 {
        let s = decimal(n);
        assert(s =~= seq![digit(n as int)]);
        assert(s.drop_last() =~= seq![]);
        assert(s.last() as int == '0' as int + n);
        assert forall|i: int| 0 <= i < s.len() implies is_ascii_digit(#[trigger] s[i]) by {}
    } else {
        let most = decimal(n / 10);
        let s = decimal(n);
        lemma_decimal(n / 10);
        assert(s == most.push(digit((n % 10) as int)));
        assert(s.drop_last() =~= most);
        assert(s.last() as int == '0' as int + n % 10);
        assert forall|i: int| 0 <= i < s.len() implies is_ascii_digit(#[trigger] s[i]) by {
            if i < most.len() {
                assert(s[i] == most[i]);
            }
        }
    }
}

/// A number that was written reads back, and with a sign as its opposite.
pub proof fn law_numbers_read_back(n: nat)
    requires
        n <= i64::MAX,
    ensures
        integer_of(decimal(n)) == Some(n as i64),
        natural_of(decimal(n)) == Some(n as u64),
        integer_of(seq!['-'] + decimal(n)) == Some((-n) as i64),
{
    lemma_decimal(n);
    let s = decimal(n);
    assert(is_ascii_digit(s[0]));
    assert((seq!['-'] + s).drop_first() =~= s);
}

/// The larger of two numbers, and a number brought into an interval.
pub proof fn law_doubles_are_ordered(a: Double, b: Double, c: Double)
    ensures
        a.spec_max(b).rank() >= a.rank() && a.spec_max(b).rank() >= b.rank(),
        a.spec_max(b) == a || a.spec_max(b) == b,
        b.rank() <= c.rank() ==> b.rank() <= a.spec_clamp(b, c).rank() <= c.rank(),
        b.rank() <= a.rank() <= c.rank() ==> a.spec_clamp(b, c) == a,
        a.bits < 0x8000000000000000 <= b.bits && b.bits > 0x8000000000000000 ==> b.rank() < a.rank(),
        a.bits < b.bits < 0x8000000000000000 ==> a.rank() < b.rank(),
        0x8000000000000000 <= a.bits < b.bits ==> b.rank() < a.rank(),
{
}

/// A date is read as an internet time first, then as one of mail, then in the forms of feeds; a
/// blank text is none.
pub proof fn law_dates_are_tried_in_turn(raw: Seq<char>)
    ensures
        ({
            let s = trim(raw);
            let d = feed_date(raw);
            let (a, b) = (crate::models::rfc3339_instant(s), crate::models::rfc2822_instant(s));
            let c = weekday_date(without_weekday(s));
            &&& s.len() == 0 ==> d is None
            &&& s.len() > 0 && a is Some ==> d == a
            &&& s.len() > 0 && a is None && b is Some ==> d == b
            &&& s.len() > 0 && a is None && b is None && c is Some ==> d == c
            &&& s.len() > 0 && a is None && b is None && c is None ==> d == plain_date(s)
        }),
{
}

/// Rounding gives the nearest whole number, and of two that are equally near the even one.
pub proof fn law_rounds_to_nearest(n: nat, d: nat)
    requires
        d > 0,
    ensures
        ({
            let q = crate::double::half_even(n, d);
            &&& 2 * (n - q * d) <= d
            &&& 2 * (q * d - n) <= d
            &&& 2 * (n - q * d) == d || 2 * (q * d - n) == d ==> q % 2 == 0
        }),
{
    vstd::arithmetic::div_mod::lemma_fundamental_div_mod(n as int, d as int);
    let (f, r) = (n / d, n % d);
    assert(r < d) by {
        vstd::arithmetic::div_mod::lemma_mod_bound(n as int, d as int);
    }
    assert(f * d == d * f) by (nonlinear_arith);
    assert((f + 1) * d == d * f + d) by (nonlinear_arith);
}

/// A score is written in tenths, with its sign, and one decimal place.
pub proof fn law_scores_are_written_in_tenths(n: int)
    ensures
        ({
            let t = crate::double::in_tenths(n);
            let m = if n < 0 {
                -n
            } else {
                n
            };
            &&& 2 * (m - t * 100_000) <= 100_000
            &&& 2 * (t * 100_000 - m) <= 100_000
            &&& n < 0 ==> crate::double::tenths(n, true) == "-"@ + crate::double::notation(t, 1)
            &&& n >= 0 ==> crate::double::tenths(n, true) == "+"@ + crate::double::notation(t, 1)
        }),
{
    law_rounds_to_nearest(
        if n < 0 {
            (-n) as nat
        } else {
            n as nat
        },
        100_000,
    );
}

} // verus!
