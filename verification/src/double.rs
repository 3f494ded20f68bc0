//! Double-precision numbers that are carried and compared, never computed with.
//!
//! Confidences, coordinates and similarity values come from outside as IEEE 754 doubles. The
//! engine only asks which of two is larger, and the order of two doubles that are numbers can
//! be read off their bit patterns: so a number is held by its bits, and nothing is rounded.

use vstd::arithmetic::power2::pow2;
use vstd::prelude::*;
use vstd::string::*;

use crate::text::{decimal, decimal_of, digit};

verus! {

/// The bits of the double 0.0.
pub const ZERO: u64 = 0;

/// The bits of the double 1.0.
pub const ONE: u64 = 0x3ff0000000000000;

/// A double-precision number that is not a NaN, held by its bit pattern.
#[derive(Clone, Copy, Debug, PartialEq, Eq, Structural)]
pub struct Double {
    pub bits: u64,
}

impl Double {
    /// The place of the number in the order of doubles; both zeros have place 0.
    pub open spec fn rank(self) -> int {
        if self.bits < 0x8000000000000000 {
            self.bits as int
        } else {
            0x8000000000000000 - self.bits
        }
    }

    /// The number with the given bit pattern.
    pub fn from_bits(bits: u64) -> (r: Double)
        ensures
            r.bits == bits,
    {
        Double { bits }
    }

    fn place(self) -> (r: i64)
        ensures
            r == self.rank(),
    {
        if self.bits < 0x8000000000000000 {
            self.bits as i64
        } else {
            -((self.bits - 0x8000000000000000) as i64)
        }
    }

    /// The place of the number as a sort key.
    pub fn key(self) -> (r: i128)
        ensures
            r == self.rank(),
    {
        self.place() as i128
    }

    /// `self >= other`.
    pub fn at_least(self, other: Double) -> (r: bool)
        ensures
            r == (self.rank() >= other.rank()),
    {
        self.place() >= other.place()
    }

    /// `self > other`.
    pub fn above(self, other: Double) -> (r: bool)
        ensures
            r == (self.rank() > other.rank()),
    {
        self.place() > other.place()
    }

    /// The larger of two numbers, `self` where they are equal.
    pub open spec fn spec_max(self, other: Double) -> Double {
        if other.rank() > self.rank() {
            other
        } else {
            self
        }
    }

    pub fn max(self, other: Double) -> (r: Double)
        ensures
            r == self.spec_max(other),
    {
        if other.above(self) {
            other
        } else {
            self
        }
    }

    /// The number of the interval from `lo` to `hi` that is nearest to `self`.
    pub open spec fn spec_clamp(self, lo: Double, hi: Double) -> Double {
        if self.rank() < lo.rank() {
            lo
        } else if self.rank() > hi.rank() {
            hi
        } else {
            self
        }
    }

    pub fn clamp(self, lo: Double, hi: Double) -> (r: Double)
        requires
            lo.rank() <= hi.rank(),
        ensures
            r == self.spec_clamp(lo, hi),
            lo.rank() <= r.rank() <= hi.rank(),
    {
        if lo.above(self) {
            lo
        } else if self.above(hi) {
            hi
        } else {
            self
        }
    }
}

// ---------------------------------------------------------------------------------------------
// Decimal notation

/// The quotient of two numbers rounded to the nearest integer, to the even one of two.
pub open spec fn half_even(n: nat, d: nat) -> nat {
    let q = n / d;
    let r = n % d;
    if 2 * r > d || (2 * r == d && q % 2 == 1) {
        q + 1
    } else {
        q
    }
}

/// Ten to the given power, up to the third.
pub open spec fn ten_to(places: nat) -> nat {
    if places == 0 {
        1
    } else if places == 1 {
        10
    } else if places == 2 {
        100
    } else {
        1000
    }
}

impl Double {
    /// The field of the exponent.
    pub open spec fn biased(self) -> int {
        (self.bits / 0x10000000000000) as int % 2048
    }

    /// The field of the fraction.
    pub open spec fn fraction(self) -> int {
        self.bits as int % 0x10000000000000
    }

    /// The number is neither an infinity nor a NaN.
    pub open spec fn is_finite(self) -> bool {
        self.biased() != 2047
    }

    /// The integer `m` where the magnitude of a finite number is `m` times two to the power of
    /// `exponent`.
    pub open spec fn mantissa(self) -> nat {
        if self.biased() == 0 {
            self.fraction() as nat
        } else {
            (self.fraction() + 0x10000000000000) as nat
        }
    }

    pub open spec fn exponent(self) -> int {
        if self.biased() == 0 {
            -1074
        } else {
            self.biased() - 1075
        }
    }

    /// The magnitude of a finite number in units of the last of the given decimal places,
    /// rounded to the nearest.
    pub open spec fn in_units(self, places: nat) -> nat {
        if self.exponent() >= 0 {
            self.mantissa() * pow2(self.exponent() as nat) * ten_to(places)
        } else {
            half_even(self.mantissa() * ten_to(places), pow2((-self.exponent()) as nat))
        }
    }
}

/// The given number of decimal digits of `n`, with leading zeros.
pub open spec fn padded(n: nat, places: nat) -> Seq<char>
    decreases places,
{
    if places == 0 {
        seq![]
    } else {
        padded(n / 10, (places - 1) as nat).push(digit((n % 10) as int))
    }
}

/// The decimal notation of a number given in units of the last of `places` decimal places.
pub open spec fn notation(units: nat, places: nat) -> Seq<char> {
    decimal(units / ten_to(places)) + "."@ + padded(units % ten_to(places), places)
}

/// A number with the given number of decimal places, one to three.
pub open spec fn fixed(d: Double, places: nat) -> Seq<char> {
    let sign = if d.bits >= 0x8000000000000000 {
        "-"@
    } else {
        ""@
    };
    if d.is_finite() {
        sign + notation(d.in_units(places), places)
    } else if d.fraction() == 0 {
        sign + "inf"@
    } else {
        "NaN"@
    }
}

fn tens(places: u8) -> (r: u64)
    requires
        1 <= places <= 3,
    ensures
        r == ten_to(places as nat),
{
    if places == 1 {
        10
    } else if places == 2 {
        100
    } else {
        1000
    }
}

fn two_to(k: u64) -> (r: u128)
    requires
        k <= 70,
    ensures
        r == pow2(k as nat),
        r <= 0x40_0000_0000_0000_0000,
{
    let mut r: u128 = 1;
    let mut i: u64 = 0;
    proof {
        vstd::arithmetic::power2::lemma2_to64();
    }
    while i < k
        invariant
            i <= k <= 70,
            r == pow2(i as nat),
        decreases k - i,
    {
        proof {
            lemma_pow2_bound(i as nat);
            vstd::arithmetic::power2::lemma_pow2_unfold((i + 1) as nat);
        }
        r = r * 2;
        i += 1;
    }
    proof {
        lemma_pow2_bound(k as nat);
    }
    r
}

proof fn lemma_pow2_bound(k: nat)
    requires
        k <= 70,
    ensures
        pow2(k) <= 0x40_0000_0000_0000_0000,
{
    vstd::arithmetic::power2::lemma2_to64_rest();
    vstd::arithmetic::power2::lemma2_to64();
    if k < 70 {
        vstd::arithmetic::power2::lemma_pow2_strictly_increases(k, 70);
    }
    vstd::arithmetic::power2::lemma_pow2_adds(64, 6);
}

/// The value of a list of decimal digits, the lowest first.
spec fn value_of(ds: Seq<u8>) -> nat
    decreases ds.len(),
{
    if ds.len() == 0 {
        0
    } else {
        (ds[0] + 10 * value_of(ds.drop_first())) as nat
    }
}

/// The digits are digits, and the highest is not zero.
spec fn is_numeral(ds: Seq<u8>) -> bool {
    &&& forall|i: int| 0 <= i < ds.len() ==> #[trigger] ds[i] < 10
    &&& ds.len() > 0 ==> ds.last() > 0
}

fn doubled(ds: &Vec<u8>, i: usize, carry: u8) -> (r: Vec<u8>)
    requires
        i <= ds@.len(),
        carry <= 1,
        is_numeral(ds@),
    ensures
        value_of(r@) == 2 * value_of(ds@.skip(i as int)) + carry,
        is_numeral(r@),
        i < ds@.len() ==> r@.len() > 0,
    decreases ds@.len() - i,
{
    if i == ds.len() {
        let mut r: Vec<u8> = Vec::new();
        assert(ds@.skip(i as int) =~= seq![]);
        if carry > 0 {
            r.push(carry);
            assert(r@.drop_first() =~= seq![]);
        }
        r
    } else {
        assert(ds@[i as int] < 10);
        assert(ds@.skip(i as int).drop_first() =~= ds@.skip(i + 1));
        let t: u8 = 2 * ds[i] + carry;
        let mut r = doubled(ds, i + 1, t / 10);
        let ghost rest = r@;
        r.insert(0, t % 10);
        proof {
            assert(r@ =~= seq![(t % 10) as u8] + rest);
            assert(r@.drop_first() =~= rest);
            if rest.len() == 0 {
                assert(i + 1 == ds@.len());
                assert(ds@.last() == ds@[i as int]);
                assert(ds@.skip(i + 1) =~= seq![]);
                assert(value_of(rest) == 0);
                assert(t / 10 == 0);
            } else {
                assert(r@.last() == rest.last());
            }
        }
        r
    }
}

fn digits_of(n: u64) -> (r: Vec<u8>)
    ensures
        value_of(r@) == n,
        is_numeral(r@),
    decreases n,
{
    if n == 0 {
        Vec::new()
    } else {
        let mut r = digits_of(n / 10);
        let ghost rest = r@;
        r.insert(0, (n % 10) as u8);
        proof {
            assert(r@ =~= seq![(n % 10) as u8] + rest);
            assert(r@.drop_first() =~= rest);
            if rest.len() > 0 {
                assert(r@.last() == rest.last());
            }
        }
        r
    }
}

proof fn lemma_numeral_value(ds: Seq<u8>)
    requires
        is_numeral(ds),
    ensures
        ds.len() > 0 ==> value_of(ds) > 0,
    decreases ds.len(),
{
    if ds.len() > 1 {
        let rest = ds.drop_first();
        assert(rest.last() == ds.last());
        lemma_numeral_value(rest);
    }
}

/// The numeral of the digits from position `i` on.
fn numeral(ds: &Vec<u8>, i: usize) -> (r: String)
    requires
        i < ds@.len(),
        is_numeral(ds@),
    ensures
        r@ == decimal(value_of(ds@.skip(i as int))),
    decreases ds@.len() - i,
{
    let ghost here = ds@.skip(i as int);
    assert(ds@[i as int] < 10);
    assert(here[0] == ds@[i as int]);
    assert(here.drop_first() =~= ds@.skip(i + 1));
    let c = (48 + ds[i]) as char;
    assert(c == digit(here[0] as int));
    assert(i < ds.len());
    proof {
        let rest = value_of(ds@.skip(i + 1));
        assert(value_of(here) == here[0] + 10 * rest);
        assert(value_of(here) / 10 == rest);
        assert(value_of(here) % 10 == here[0]);
    }
    if i + 1 == ds.len() {
        assert(ds@.skip(i + 1) =~= seq![]);
        let mut s = String::new();
        s.push(c);
        assert(s@ =~= seq![c]);
        s
    } else {
        proof {
            let rest = ds@.skip(i + 1);
            assert(rest.last() == ds@.last());
            assert(is_numeral(rest));
            lemma_numeral_value(rest);
        }
        let mut s = numeral(ds, i + 1);
        s.push(c);
        s
    }
}

/// The decimal numeral of `m` times two to the power of `k`.
fn scaled_numeral(m: u64, k: u64) -> (r: String)
    requires
        m > 0,
    ensures
        r@ == decimal(m as nat * pow2(k as nat)),
{
    let mut ds = digits_of(m);
    let mut i: u64 = 0;
    proof {
        vstd::arithmetic::power2::lemma2_to64();
        assert(m as nat * pow2(0) == m);
        if ds@.len() == 0 {
            assert(value_of(ds@) == 0);
        }
    }
    while i < k
        invariant
            i <= k,
            is_numeral(ds@),
            ds@.len() > 0,
            value_of(ds@) == m as nat * pow2(i as nat),
        decreases k - i,
    {
        assert(ds@.skip(0) =~= ds@);
        ds = doubled(&ds, 0, 0);
        proof {
            vstd::arithmetic::power2::lemma_pow2_unfold((i + 1) as nat);
            assert(m as nat * pow2((i + 1) as nat) == 2 * (m as nat * pow2(i as nat)))
                by (nonlinear_arith)
                requires
                    pow2((i + 1) as nat) == 2 * pow2(i as nat),
            ;
        }
        i += 1;
    }
    assert(ds@.skip(0) =~= ds@);
    numeral(&ds, 0)
}

fn round_half_even(n: u128, d: u128) -> (r: u128)
    requires
        0 < d <= 0x40_0000_0000_0000_0000,
        n <= 0x40_0000_0000_0000_0000,
    ensures
        r == half_even(n as nat, d as nat),
        r <= n + 1,
{
    let q = n / d;
    let r = n % d;
    proof {
        assert(q <= n) by (nonlinear_arith)
            requires
                q == n / d,
                d > 0,
        ;
    }
    if 2 * r > d || (2 * r == d && q % 2 == 1) {
        q + 1
    } else {
        q
    }
}

/// The given number of decimal digits of a number, with leading zeros.
pub fn pad(n: u64, places: u8) -> (r: String)
    ensures
        r@ == padded(n as nat, places as nat),
    decreases places,
{
    if places == 0 {
        let s = String::new();
        assert(s@ =~= seq![]);
        s
    } else {
        let mut s = pad(n / 10, places - 1);
        let d = (n % 10) as u8;
        let c = (48 + d) as char;
        assert(c == digit((n % 10) as int));
        s.push(c);
        s
    }
}

proof fn lemma_far_below(n: nat, k: nat)
    requires
        n < 0x8000_0000_0000_0000,
        k > 70,
    ensures
        half_even(n, pow2(k)) == 0,
{
    vstd::arithmetic::power2::lemma2_to64_rest();
    vstd::arithmetic::power2::lemma_pow2_strictly_increases(64, k);
    vstd::arithmetic::div_mod::lemma_small_mod(n, pow2(k));
    vstd::arithmetic::div_mod::lemma_basic_div(n as int, pow2(k) as int);
}

impl Double {
    /// The number with the given number of decimal places.
    pub fn to_fixed(self, places: u8) -> (r: String)
        requires
            1 <= places <= 3,
        ensures
            r@ == fixed(self, places as nat),
    {
        let biased: u64 = (self.bits / 0x10000000000000) % 2048;
        let fraction: u64 = self.bits % 0x10000000000000;
        let negative = self.bits >= 0x8000000000000000;
        let mut out = if negative {
            "-".to_owned()
        } else {
            "".to_owned()
        };
        if biased == 2047 {
            if fraction == 0 {
                out.append("inf");
                return out;
            }
            return "NaN".to_owned();
        }
        let mantissa: u64 = if biased == 0 {
            fraction
        } else {
            fraction + 0x10000000000000
        };
        let t = tens(places);
        if biased >= 1075 {
            let k: u64 = biased - 1075;
            let ghost whole = mantissa as nat * pow2(k as nat);
            let whole_text = scaled_numeral(mantissa, k);
            let mut text = whole_text;
            text.append(".");
            text.append(pad(0, places).as_str());
            proof {
                lemma_whole(whole, places as nat);
            }
            out.append(text.as_str());
            out
        } else {
            let k: u64 = if biased == 0 {
                1074
            } else {
                1075 - biased
            };
            let n: u64 = mantissa * t;
            let units: u64 = if k > 70 {
                proof {
                    lemma_far_below(n as nat, k as nat);
                }
                0
            } else {
                proof {
                    lemma_pow2_bound(k as nat);
                    vstd::arithmetic::power2::lemma_pow2_pos(k as nat);
                }
                round_half_even(n as u128, two_to(k)) as u64
            };
            let mut text = decimal_of(units / t);
            text.append(".");
            text.append(pad(units % t, places).as_str());
            out.append(text.as_str());
            out
        }
    }
}

proof fn lemma_whole(whole: nat, places: nat)
    requires
        1 <= places <= 3,
    ensures
        (whole * ten_to(places)) / ten_to(places) == whole,
        (whole * ten_to(places)) % ten_to(places) == 0,
{
    let t = ten_to(places) as int;
    vstd::arithmetic::div_mod::lemma_div_by_multiple(whole as int, t);
    vstd::arithmetic::div_mod::lemma_mod_multiples_basic(whole as int, t);
}

/// What a count of millionths is in tenths, rounded to the nearest, to the even one of two.
pub open spec fn in_tenths(millionths: int) -> nat {
    half_even(
        if millionths < 0 {
            (-millionths) as nat
        } else {
            millionths as nat
        },
        100_000,
    )
}

/// A count of millionths with one decimal place; a plus sign is put where it is asked for.
pub open spec fn tenths(millionths: int, plus: bool) -> Seq<char> {
    let sign = if millionths < 0 {
        "-"@
    } else if plus {
        "+"@
    } else {
        ""@
    };
    sign + notation(in_tenths(millionths), 1)
}

/// A count of millionths with one decimal place.
pub fn show_tenths(millionths: i64, plus: bool) -> (r: String)
    ensures
        r@ == tenths(millionths as int, plus),
{
    let mut out = if millionths < 0 {
        "-".to_owned()
    } else if plus {
        "+".to_owned()
    } else {
        "".to_owned()
    };
    let m: u64 = if millionths >= 0 {
        millionths as u64
    } else if millionths == i64::MIN {
        9223372036854775808
    } else {
        (-millionths) as u64
    };
    let units: u64 = round_half_even(m as u128, 100_000) as u64;
    let mut text = decimal_of(units / 10);
    text.append(".");
    text.append(pad(units % 10, 1).as_str());
    out.append(text.as_str());
    out
}

} // verus!
