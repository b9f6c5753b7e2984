//! Fixed-point arithmetic scaled by 10^6.
//!
//! The same policy over the same snapshot must yield bit-identical results
//! in every conformant implementation. Floating point cannot provide that,
//! so the evaluation layer has no floats at all, and this type is the only
//! numeric carrier it uses. Division truncates toward zero.

use crate::text::string_from_utf8;
use vstd::prelude::*;
use vstd::utf8::*;

verus! {

broadcast use vstd::utf8::group_utf8_lib;

/// The scaling factor: six decimal places.
pub const SCALE: i128 = 1_000_000;

/// A number scaled by 10^6, with truncating division.
///
/// Backed by `i128` so that a multiplication of two scaled values cannot
/// overflow before the division that rescales it.
#[derive(Debug, Clone, Copy, PartialEq, Eq, PartialOrd, Ord, Default, Hash, Structural)]
pub struct Fixed6(i128);

impl View for Fixed6 {
    type V = int;

    closed spec fn view(&self) -> int {
        self.0 as int
    }
}

/// `x` held to the range of `i128`.
pub open spec fn clamp(x: int) -> int {
    if x > i128::MAX {
        i128::MAX as int
    } else if x < i128::MIN {
        i128::MIN as int
    } else {
        x
    }
}

/// The absolute value.
pub open spec fn abs(x: int) -> int {
    if x < 0 {
        -x
    } else {
        x
    }
}

/// Division truncating toward zero.
pub open spec fn tdiv(a: int, b: int) -> int {
    if (a < 0) == (b < 0) {
        abs(a) / abs(b)
    } else {
        -(abs(a) / abs(b))
    }
}

/// `v` halved `n` times, each halving truncating toward zero.
pub open spec fn halvings(v: int, n: nat) -> int
    decreases n,
{
    if n == 0 {
        v
    } else {
        tdiv(halvings(v, (n - 1) as nat), 2)
    }
}

/// What [`Fixed6::halve_fractional`] computes.
pub open spec fn halve_spec(v: int, numerator: nat, denominator: nat) -> int {
    if denominator == 0 || v == 0 {
        v
    } else if numerator / denominator >= 127 {
        0
    } else {
        let h = halvings(v, numerator / denominator);
        let rem = numerator % denominator;
        if rem == 0 {
            h
        } else {
            h - tdiv(h * rem, (denominator * 2) as int)
        }
    }
}

/// Halvings never grow a value's magnitude.
proof fn lemma_halvings_shrink(v: int, n: nat)
    ensures
        abs(halvings(v, n)) <= abs(v),
    decreases n,
{
    if n > 0 {
        lemma_halvings_shrink(v, (n - 1) as nat);
    }
}

/// Truncating division of values in range by a divisor other than -1
/// stays in range.
proof fn lemma_tdiv_range(a: int, b: int)
    requires
        i128::MIN <= a <= i128::MAX,
        b != 0,
        !(a == i128::MIN && b == -1),
    ensures
        i128::MIN <= tdiv(a, b) <= i128::MAX,
        abs(tdiv(a, b)) <= abs(a),
{
    assert(abs(a) / abs(b) <= abs(a)) by (nonlinear_arith)
        requires
            abs(a) >= 0,
            abs(b) >= 1,
    ;
    if abs(b) == 1 {
        assert(abs(a) / abs(b) == abs(a));
    } else {
        assert(abs(a) / abs(b) <= abs(a) / 2) by (nonlinear_arith)
            requires
                abs(a) >= 0,
                abs(b) >= 2,
        ;
    }
}

/// Truncating division by the machine, checked.
pub(crate) fn div_trunc(a: i128, b: i128) -> (r: i128)
    requires
        b != 0,
        !(a == i128::MIN && b == -1),
    ensures
        r == tdiv(a as int, b as int),
{
    proof {
        lemma_tdiv_range(a as int, b as int);
    }
    match a.checked_div(b) {
        Some(q) => q,
        None => 0,
    }
}

/// Multiplication saturating at the ends of `i128`.
pub(crate) fn sat_mul(a: i128, b: i128) -> (r: i128)
    ensures
        r == clamp(a * b),
{
    match a.checked_mul(b) {
        Some(p) => p,
        None => {
            if (a < 0) == (b < 0) {
                proof {
                    if a < 0 {
                        assert(a * b > 0) by (nonlinear_arith)
                            requires
                                a < 0,
                                b < 0,
                        ;
                    } else {
                        assert(a * b >= 0) by (nonlinear_arith)
                            requires
                                a >= 0,
                                b >= 0,
                        ;
                    }
                }
                i128::MAX
            } else {
                proof {
                    if a < 0 {
                        assert(a * b <= 0) by (nonlinear_arith)
                            requires
                                a < 0,
                                b >= 0,
                        ;
                    } else {
                        assert(a * b <= 0) by (nonlinear_arith)
                            requires
                                a >= 0,
                                b < 0,
                        ;
                    }
                }
                i128::MIN
            }
        },
    }
}

impl Fixed6 {
    /// Zero.
    pub fn zero() -> (r: Self)
        ensures
            r@ == 0,
    {
        Fixed6(0)
    }

    /// One.
    pub fn one() -> (r: Self)
        ensures
            r@ == SCALE,
    {
        Fixed6(SCALE)
    }

    /// Construct from a raw scaled value.
    pub fn from_scaled(raw: i128) -> (r: Self)
        ensures
            r@ == raw,
    {
        Fixed6(raw)
    }

    /// Construct from a whole number.
    pub fn from_integer(n: i64) -> (r: Self)
        ensures
            r@ == n * SCALE,
    {
        assert(i64::MIN * 1_000_000 <= n * 1_000_000 <= i64::MAX * 1_000_000) by (nonlinear_arith)
            requires
                i64::MIN <= n <= i64::MAX,
        ;
        Fixed6(n as i128 * SCALE)
    }

    /// The underlying scaled value.
    pub fn to_scaled(self) -> (r: i128)
        ensures
            r == self@,
    {
        self.0
    }

    /// `self * numerator / denominator`, truncating toward zero.
    ///
    /// The multiplication happens before the division and in `i128`
    /// (saturating at its ends), so precision is not lost to an
    /// intermediate rounding. A zero denominator gives zero: a key that
    /// confers no weight at all confers none to anyone. The one quotient
    /// `i128` cannot hold, its least value divided by -1, is excluded.
    pub fn mul_div(self, numerator: Self, denominator: Self) -> (r: Self)
        requires
            !(clamp(self@ * numerator@) == i128::MIN && denominator@ == -1),
        ensures
            denominator@ == 0 ==> r@ == 0,
            denominator@ != 0 ==> r@ == tdiv(clamp(self@ * numerator@), denominator@),
    {
        if denominator.0 == 0 {
            return Fixed6(0);
        }
        Fixed6(div_trunc(sat_mul(self.0, numerator.0), denominator.0))
    }

    /// `self * other`, truncating toward zero.
    pub fn times(self, other: Self) -> (r: Self)
        ensures
            r@ == tdiv(clamp(self@ * other@), SCALE as int),
    {
        Fixed6(div_trunc(sat_mul(self.0, other.0), SCALE))
    }

    /// `self / other`, truncating toward zero; zero when `other` is zero.
    /// The one quotient `i128` cannot hold is excluded.
    pub fn ratio(self, other: Self) -> (r: Self)
        requires
            !(clamp(self@ * SCALE) == i128::MIN && other@ == -1),
        ensures
            other@ == 0 ==> r@ == 0,
            other@ != 0 ==> r@ == tdiv(clamp(self@ * SCALE), other@),
    {
        if other.0 == 0 {
            return Fixed6(0);
        }
        Fixed6(div_trunc(sat_mul(self.0, SCALE), other.0))
    }

    /// The smaller of two values; the first when they are equal.
    pub fn min(self, other: Self) -> (r: Self)
        ensures
            r == (if self@ <= other@ {
                self
            } else {
                other
            }),
    {
        if self.0 <= other.0 {
            self
        } else {
            other
        }
    }

    /// Whether this value is zero.
    pub fn is_zero(self) -> (r: bool)
        ensures
            r == (self@ == 0),
    {
        self.0 == 0
    }

    /// Halve repeatedly, for exponential decay.
    ///
    /// Computes `self * 2^(-numerator/denominator)` by applying whole
    /// halvings and then a linear interpolation of the remainder, fully
    /// specified by integer operations. On whole periods it is exact
    /// halving; from 127 periods on the result is zero. The interpolation
    /// product must fit in `i128`.
    pub fn halve_fractional(self, numerator: u64, denominator: u64) -> (r: Self)
        requires
            denominator != 0 && self@ != 0 && numerator / denominator < 127 ==> i128::MIN <= halvings(
                self@,
                (numerator / denominator) as nat,
            ) * (numerator % denominator) <= i128::MAX,
        ensures
            r@ == halve_spec(self@, numerator as nat, denominator as nat),
    {
        if denominator == 0 || self.0 == 0 {
            return self;
        }
        let whole = numerator / denominator;
        let limit: u64 = if whole < 127 {
            whole
        } else {
            127
        };
        let mut value = self.0;
        let mut k: u64 = 0;
        while k < limit
            invariant
                k <= limit,
                value == halvings(self@, k as nat),
            decreases limit - k,
        {
            proof {
                lemma_halvings_shrink(self@, k as nat);
            }
            value = div_trunc(value, 2);
            k = k + 1;
        }
        if whole >= 127 {
            return Fixed6(0);
        }
        let remainder = numerator % denominator;
        if remainder == 0 {
            return Fixed6(value);
        }
        let frac = remainder as i128;
        let den = denominator as i128;
        proof {
            lemma_halvings_shrink(self@, whole as nat);
            assert(abs(value * frac) >= 0);
        }
        let product = value * frac;
        let part = div_trunc(product, den * 2);
        proof {
            lemma_tdiv_range(product as int, (den * 2) as int);
            assert(abs(part as int) <= abs(product as int));
            assert(abs(value as int) <= abs(product as int)) by (nonlinear_arith)
                requires
                    product == value * frac,
                    frac >= 1,
            ;
            if (value < 0) == (product < 0) {
            }
            assert((value < 0) == (product < 0) || product == 0) by (nonlinear_arith)
                requires
                    product == value * frac,
                    frac >= 1,
            ;
            assert((part < 0) ==> (product < 0));
            assert((part > 0) ==> (product > 0));
        }
        Fixed6(value - part)
    }

    /// Render with exactly six decimal places, so that output is stable:
    /// an optional `-`, the whole part in decimal, a point, and six digits.
    pub fn to_string(&self) -> (r: String)
        ensures
            encode_utf8(r@) == fixed_text(self@),
    {
        let negative = self.0 < 0;
        let magnitude: u128 = if negative {
            ((-(self.0 + 1)) as u128) + 1
        } else {
            self.0 as u128
        };
        let whole = magnitude / 1_000_000;
        let frac = magnitude % 1_000_000;
        let mut out: Vec<u8> = Vec::new();
        if negative {
            out.push(45);
        }
        push_decimal(&mut out, whole);
        out.push(46);
        let mut p: u128 = 100_000;
        let mut i: u64 = 0;
        let ghost before = out@;
        proof {
            lemma_pow10_values();
        }
        while i < 6
            invariant
                i <= 6,
                p == pow10((5 - i) as nat) || i == 6,
                out@ == before + six_digits(frac as nat).take(i as int),
                frac < 1_000_000,
            decreases 6 - i,
        {
            proof {
                lemma_pow10_values();
            }
            let d = (frac / p) % 10;
            out.push(48 + d as u8);
            proof {
                assert(six_digits(frac as nat).take(i + 1) =~= six_digits(frac as nat).take(i as int).push(
                    (48 + d) as u8,
                ));
            }
            if i < 5 {
                p = p / 10;
            }
            i = i + 1;
        }
        proof {
            assert(six_digits(frac as nat).take(6) =~= six_digits(frac as nat));
            assert(abs(self@) == magnitude);
            assert(out@ =~= fixed_text(self@));
            lemma_text_ascii(self@);
            crate::cid::lemma_ascii_valid(out@);
        }
        match string_from_utf8(out) {
            Some(s) => s,
            None => {
                assert(false);
                String::new()
            },
        }
    }
}

/// Ten to the `n`.
pub open spec fn pow10(n: nat) -> nat
    decreases n,
{
    if n == 0 {
        1
    } else {
        10 * pow10((n - 1) as nat)
    }
}

proof fn lemma_pow10_values()
    ensures
        pow10(0) == 1,
        pow10(1) == 10,
        pow10(2) == 100,
        pow10(3) == 1000,
        pow10(4) == 10000,
        pow10(5) == 100000,
{
    reveal_with_fuel(pow10, 6);
}

/// The decimal digits of `n`, as ASCII bytes, most significant first.
pub open spec fn decimal(n: nat) -> Seq<u8>
    decreases n,
{
    if n < 10 {
        seq![(48 + n) as u8]
    } else {
        decimal(n / 10).push((48 + n % 10) as u8)
    }
}

/// A number below a million as exactly six ASCII digits.
pub open spec fn six_digits(f: nat) -> Seq<u8> {
    Seq::new(6, |i: int| (48 + (f / pow10((5 - i) as nat)) % 10) as u8)
}

/// The text form of a scaled value, as ASCII bytes.
pub open spec fn fixed_text(v: int) -> Seq<u8> {
    let sign = if v < 0 {
        seq![45u8]
    } else {
        Seq::empty()
    };
    sign + decimal((abs(v) / 1_000_000) as nat) + seq![46u8] + six_digits((abs(v) % 1_000_000) as nat)
}

/// Text forms are ASCII.
proof fn lemma_text_ascii(v: int)
    ensures
        forall|k: int| 0 <= k < fixed_text(v).len() ==> fixed_text(v)[k] < 128,
{
    lemma_decimal_ascii((abs(v) / 1_000_000) as nat);
}

proof fn lemma_decimal_ascii(n: nat)
    ensures
        forall|k: int| 0 <= k < decimal(n).len() ==> decimal(n)[k] < 128,
    decreases n,
{
    if n >= 10 {
        lemma_decimal_ascii(n / 10);
        let d = decimal(n / 10);
        assert forall|k: int| 0 <= k < decimal(n).len() implies decimal(n)[k] < 128 by {
            if k < d.len() {
                assert(decimal(n)[k] == d[k]);
            }
        }
    }
}

/// Append the decimal digits of `n`.
fn push_decimal(out: &mut Vec<u8>, n: u128)
    ensures
        final(out)@ == old(out)@ + decimal(n as nat),
    decreases n,
{
    if n >= 10 {
        push_decimal(out, n / 10);
    }
    out.push(48 + (n % 10) as u8);
    proof {
        if n >= 10 {
            assert(final(out)@ =~= old(out)@ + decimal(n as nat));
        } else {
            assert(final(out)@ =~= old(out)@ + decimal(n as nat));
        }
    }
}

impl vstd::std_specs::ops::AddSpecImpl for Fixed6 {
    open spec fn obeys_add_spec() -> bool {
        true
    }

    open spec fn add_req(self, rhs: Fixed6) -> bool {
        true
    }

    closed spec fn add_spec(self, rhs: Fixed6) -> Fixed6 {
        Fixed6(clamp(self.0 + rhs.0) as i128)
    }
}

impl vstd::std_specs::ops::SubSpecImpl for Fixed6 {
    open spec fn obeys_sub_spec() -> bool {
        true
    }

    open spec fn sub_req(self, rhs: Fixed6) -> bool {
        true
    }

    closed spec fn sub_spec(self, rhs: Fixed6) -> Fixed6 {
        Fixed6(clamp(self.0 - rhs.0) as i128)
    }
}

impl core::ops::Add for Fixed6 {
    type Output = Fixed6;

    /// Addition saturating at the ends of `i128` rather than wrapping.
    fn add(self, other: Fixed6) -> (r: Fixed6)
        ensures
            r@ == clamp(self@ + other@),
    {
        match self.0.checked_add(other.0) {
            Some(s) => Fixed6(s),
            None => if other.0 > 0 {
                Fixed6(i128::MAX)
            } else {
                Fixed6(i128::MIN)
            },
        }
    }
}

impl core::ops::Sub for Fixed6 {
    type Output = Fixed6;

    /// Subtraction saturating at the ends of `i128` rather than wrapping.
    fn sub(self, other: Fixed6) -> (r: Fixed6)
        ensures
            r@ == clamp(self@ - other@),
    {
        match self.0.checked_sub(other.0) {
            Some(s) => Fixed6(s),
            None => if other.0 < 0 {
                Fixed6(i128::MAX)
            } else {
                Fixed6(i128::MIN)
            },
        }
    }
}

/// Halving a value that is not negative keeps it so, and halving it at
/// least once more than halves it.
proof fn lemma_halvings_nonneg(v: int, n: nat)
    requires
        v >= 0,
    ensures
        0 <= halvings(v, n) <= v,
        n >= 1 ==> halvings(v, n) <= v / 2,
    decreases n,
{
    if n > 0 {
        lemma_halvings_nonneg(v, (n - 1) as nat);
        let p = halvings(v, (n - 1) as nat);
        assert(tdiv(p, 2) == p / 2);
        if n >= 2 {
            assert(p <= v / 2);
        }
    }
}

/// Decay never raises a weight that is not negative, nor makes it
/// negative.
pub proof fn law_decay_never_raises(v: int, age: nat, half_life: nat)
    requires
        v >= 0,
    ensures
        0 <= halve_spec(v, age, half_life) <= v,
{
    if half_life != 0 && v != 0 && age / half_life < 127 {
        let n = age / half_life;
        lemma_halvings_nonneg(v, n);
        let h = halvings(v, n);
        let rem = age % half_life;
        if rem != 0 {
            assert(0 <= h * rem <= h * (half_life * 2)) by (nonlinear_arith)
                requires
                    h >= 0,
                    0 < rem < half_life,
            ;
            assert(h * rem / ((half_life * 2) as int) <= h) by (nonlinear_arith)
                requires
                    0 <= h * rem <= h * (half_life * 2),
                    half_life > 0,
            ;
            assert(tdiv(h * rem, (half_life * 2) as int) == h * rem / ((half_life * 2) as int));
        }
    }
}

/// A positive weight at least one half-life old confers strictly less
/// than it was declared with.
pub proof fn law_decay_reduces_an_older_weight(v: int, age: nat, half_life: nat)
    requires
        v > 0,
        0 < half_life <= age,
    ensures
        halve_spec(v, age, half_life) < v,
{
    law_decay_never_raises(v, age, half_life);
    let n = age / half_life;
    assert(n >= 1) by (nonlinear_arith)
        requires
            0 < half_life <= age,
            n == age / half_life,
    ;
    if n < 127 {
        lemma_halvings_nonneg(v, n);
        let h = halvings(v, n);
        assert(h < v);
        if age % half_life != 0 {
            let rem = age % half_life;
            assert(0 <= h * rem) by (nonlinear_arith)
                requires
                    h >= 0,
                    rem > 0,
            ;
            assert(tdiv(h * rem, (half_life * 2) as int) >= 0);
        }
    }
}

/// One day more of age never raises a decayed weight that is not
/// negative.
proof fn lemma_decay_step(v: int, a: nat, d: nat)
    requires
        v >= 0,
        d > 0,
    ensures
        halve_spec(v, a + 1, d) <= halve_spec(v, a, d),
{
    if v == 0 {
        return;
    }
    law_decay_never_raises(v, a, d);
    law_decay_never_raises(v, a + 1, d);
    let n = a / d;
    let r = a % d;
    vstd::arithmetic::div_mod::lemma_fundamental_div_mod(a as int, d as int);
    assert(0 <= r < d);
    if r + 1 < d {
        vstd::arithmetic::div_mod::lemma_fundamental_div_mod_converse((a + 1) as int, d as int, n as int, (r + 1) as int);
        if n < 127 {
            let h = halvings(v, n);
            lemma_halvings_nonneg(v, n);
            let dd = (d * 2) as int;
            assert(dd > 0);
            assert(0 <= h * r <= h * (r + 1)) by (nonlinear_arith)
                requires
                    h >= 0,
                    r >= 0,
            ;
            assert(tdiv(h * (r + 1), dd) == h * (r + 1) / dd);
            assert(tdiv(h * r, dd) == h * r / dd);
            vstd::arithmetic::div_mod::lemma_div_is_ordered(h * r, h * (r + 1), dd);
            if r == 0 {
                vstd::arithmetic::div_mod::lemma_div_of0(dd);
            }
        }
    } else {
        assert((n + 1) * d == d * n + d) by (nonlinear_arith);
        vstd::arithmetic::div_mod::lemma_fundamental_div_mod_converse((a + 1) as int, d as int, (n + 1) as int, 0);
        if n + 1 < 127 {
            let h = halvings(v, n);
            lemma_halvings_nonneg(v, n);
            assert(halvings(v, n + 1) == tdiv(h, 2));
            assert(tdiv(h, 2) == h / 2);
            vstd::arithmetic::div_mod::lemma_fundamental_div_mod(h, 2);
            if r != 0 {
                let dd = (d * 2) as int;
                assert(h * r >= 0) by (nonlinear_arith)
                    requires
                        h >= 0,
                        r >= 0,
                ;
                let q = h * r / dd;
                assert(tdiv(h * r, dd) == q);
                vstd::arithmetic::div_mod::lemma_fundamental_div_mod(h * r, dd);
                assert(q * 2 <= h) by (nonlinear_arith)
                    requires
                        h * r == dd * q + (h * r) % dd,
                        0 <= (h * r) % dd,
                        dd == d * 2,
                        r == d - 1,
                        d > 0,
                        h >= 0,
                ;
            }
        }
    }
}

/// An older weight decays to no more than a younger one: of two edges
/// declared with one weight that is not negative, the older confers no
/// more after decay.
pub proof fn law_decay_older_confers_less(v: int, younger: nat, older: nat, half_life: nat)
    requires
        v >= 0,
        younger <= older,
    ensures
        halve_spec(v, older, half_life) <= halve_spec(v, younger, half_life),
    decreases older - younger,
{
    if half_life != 0 && younger < older {
        law_decay_older_confers_less(v, younger, (older - 1) as nat, half_life);
        lemma_decay_step(v, (older - 1) as nat, half_life);
    }
}

} // verus!
