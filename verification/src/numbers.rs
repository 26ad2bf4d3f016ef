//! The two floating-point types that audio passes through, as their bit patterns.

use vstd::arithmetic::power2::*;
use vstd::prelude::*;

use crate::arith;
use crate::arith::{Datum, Format};
use crate::rounding;

verus! {

/// A number of the IEEE 754 binary32 format.
#[derive(Clone, Copy, PartialEq, Eq, Structural, Debug)]
pub struct Binary32 {
    pub bits: u32,
}

/// A number of the IEEE 754 binary64 format.
#[derive(Clone, Copy, PartialEq, Eq, Structural, Debug)]
pub struct Binary64 {
    pub bits: u64,
}

pub proof fn lemma_single_patterns()
    ensures
        Format::single().valid(),
        Format::single().infinity() == 0x7f80_0000,
        Format::single().nan() == (Datum { negative: false, magnitude: 0x7fc0_0000 }),
{
    lemma2_to64();
    assert(255 * pow2(23) == 0x7f80_0000) by (nonlinear_arith)
        requires
            pow2(23) == 0x80_0000,
    ;
}

pub proof fn lemma_double_patterns()
    ensures
        Format::double().valid(),
        Format::double().infinity() == 0x7ff0_0000_0000_0000,
        Format::double().nan() == (Datum { negative: false, magnitude: 0x7ff8_0000_0000_0000 }),
{
    lemma2_to64();
    lemma2_to64_rest();
    assert(2047 * pow2(52) == 0x7ff0_0000_0000_0000) by (nonlinear_arith)
        requires
            pow2(52) == 0x10_0000_0000_0000,
    ;
}

/// What a datum is packed into, it can be unpacked from.
pub proof fn lemma_packed(d: Datum)
    requires
        d.magnitude < 0x8000_0000,
    ensures
        Binary32::of_datum(d).datum() == d,
{
}

/// The results of arithmetic can be packed.
pub proof fn lemma_results_fit(a: Datum, b: Datum, n: nat)
    ensures
        Format::single().sum(a, b).magnitude < 0x8000_0000 || a.magnitude >= 0x8000_0000
            || b.magnitude >= 0x8000_0000,
        Format::single().product(a, b).magnitude < 0x8000_0000,
        Format::single().quotient(a, b).magnitude < 0x8000_0000,
        Format::single().of_integer(n).magnitude < 0x8000_0000,
{
    lemma_single_patterns();
}

/// What a pattern says of its number is what the format says of it, and numbers stand in
/// the order of their values.
pub proof fn lemma_patterns(a: Binary32, b: Binary32)
    ensures
        ({
            let f = Format::single();
            &&& a.nan() == f.is_nan(a.datum())
            &&& a.finite() == f.is_finite(a.datum())
            &&& a.at_least(b) == f.at_least(a.datum(), b.datum())
            &&& a.finite() && b.finite() ==> (a.at_least(b) <==> f.value(a.datum()) >= f.value(
                b.datum(),
            ))
        }),
{
    let f = Format::single();
    lemma_single_patterns();
    if a.finite() && b.finite() {
        arith::lemma_level_orders_values(f, b.datum(), a.datum());
    }
}

/// A larger integer does not become a smaller number, and zero alone becomes zero.
pub proof fn lemma_integers_ordered(m: nat, n: nat)
    requires
        m <= n <= u64::MAX,
    ensures
        ({
            let f = Format::single();
            let a = Binary32::of_integer(m).datum();
            let b = Binary32::of_integer(n).datum();
            &&& f.is_finite(a)
            &&& f.is_finite(b)
            &&& !a.negative
            &&& !b.negative
            &&& a.magnitude <= b.magnitude
            &&& a.magnitude == 0 <==> m == 0
            &&& b.magnitude == 0 <==> n == 0
        }),
{
    let f = Format::single();
    lemma_single_patterns();
    arith::lemma_of_integer(f, m, n);
    arith::lemma_of_integer(f, n, n);
    lemma_packed(f.of_integer(m));
    lemma_packed(f.of_integer(n));
}

/// What a number widens to is the same number, and narrowing gives it back.
pub proof fn lemma_widening_is_undone(x: Binary32)
    requires
        !x.nan(),
    ensures
        x.widened().narrowed() == x,
{
    let f = Format::single();
    let g = Format::double();
    let d = x.datum();
    lemma_single_patterns();
    lemma_double_patterns();
    let w = f.converted(g, d);
    if f.is_finite(d) {
        lemma_widened_size(d);
        let s = f.size(d);
        let small = pow2(149);
        let middle = pow2(925);
        let big = pow2(1074);
        lemma_pow2_adds(925, 149);
        lemma_pow2_pos(1074);
        assert((s * middle) * small == s * big) by (nonlinear_arith)
            requires
                big == middle * small,
        ;
        assert((s * big) * 1 == s * big);
        rounding::lemma_round_ratio_ratio(24, s * big, big, s, 1);
        rounding::lemma_round_of_quanta(24, d.magnitude as nat);
        assert(g.converted(f, w) == d);
    } else {
        assert(w == g.infinite(d.negative));
        assert(g.converted(f, w) == d);
    }
    assert(x.widened().datum() == w);
    assert(Binary32::of_datum(d) == x);
}

/// A finite number widens to a finite one with as many of the finer quanta.
pub proof fn lemma_widened_size(d: Datum)
    requires
        Format::single().is_finite(d),
    ensures
        ({
            let w = Format::single().converted(Format::double(), d);
            &&& w.negative == d.negative
            &&& Format::double().is_finite(w)
            &&& Format::double().size(w) == Format::single().size(d) * pow2(925)
        }),
{
    let f = Format::single();
    let g = Format::double();
    lemma_single_patterns();
    lemma_double_patterns();
    lemma2_to64();
    lemma2_to64_rest();
    let s = f.size(d);
    let (m, e) = arith::lemma_significand(f, d);
    let middle = pow2(925);
    lemma_pow2_adds(925, 149);
    lemma_pow2_adds(e, 925);
    lemma_pow2_pos(149);
    lemma_pow2_pos(925);
    lemma_pow2_pos(e);
    assert((s * pow2(1074)) * 1 == (s * middle) * pow2(149)) by (nonlinear_arith)
        requires
            pow2(1074) == middle * pow2(149),
    ;
    assert(s * middle == m * pow2(e + 925)) by (nonlinear_arith)
        requires
            s == m * pow2(e),
            pow2(e + 925) == pow2(e) * middle,
    ;
    rounding::lemma_round_ratio_ratio(53, s * pow2(1074), pow2(149), s * middle, 1);
    rounding::lemma_pow2_le(24, 53);
    rounding::lemma_round_exact(53, m, e + 925);
    // It is far from the largest number of the wider format.
    lemma_pow2_adds(24, e + 925);
    rounding::lemma_pow2_le(24 + e + 925, 53 + 1500);
    assert(s * middle < 1 * pow2(53 + 1500)) by (nonlinear_arith)
        requires
            s * middle == m * pow2(e + 925),
            m < pow2(24),
            pow2(24) * pow2(e + 925) <= pow2(53 + 1500),
            pow2(e + 925) > 0,
    ;
    rounding::lemma_round_ratio_limit(53, s * middle, 1, 1500);
    assert((1500 + 2) * pow2(52) < 2047 * pow2(52)) by (nonlinear_arith)
        requires
            pow2(52) > 0,
    ;
}

pub proof fn lemma_zero_narrows_to_zero()
    ensures
        (Binary64 { bits: 0 }).narrowed() == (Binary32 { bits: 0 }),
{
    lemma_single_patterns();
    lemma_double_patterns();
    lemma2_to64();
    lemma2_to64_rest();
    lemma_pow2_pos(149);
    lemma_pow2_pos(1074);
    assert(0 * pow2(149) == 0);
    rounding::lemma_round_ratio_ratio(24, 0, pow2(1074), 0, 1);
    rounding::lemma_round_of_quanta(24, 0);
}

/// Integers of no more bits than the significand has are numbers of the format.
pub proof fn lemma_small_integer(n: nat)
    requires
        n < 0x100_0000,
    ensures
        ({
            let d = Binary32::of_integer(n).datum();
            &&& !d.negative
            &&& Format::single().is_finite(d)
            &&& Format::single().size(d) == n * pow2(149)
        }),
{
    let f = Format::single();
    lemma_single_patterns();
    lemma2_to64();
    lemma_integers_ordered(n, n);
    lemma_packed(f.of_integer(n));
    rounding::lemma_round_exact(24, n, 149);
}

/// One half, and its pattern.
pub proof fn lemma_half()
    ensures
        Binary32::ratio(1, 2) == (Binary32 { bits: 0x3f00_0000 }),
{
    let f = Format::single();
    let u = pow2(149);
    let half = pow2(148);
    lemma_single_patterns();
    lemma_small_integer(1);
    lemma_small_integer(2);
    lemma_integers_ordered(1, 2);
    lemma2_to64();
    lemma_pow2_pos(149);
    lemma_pow2_adds(1, 148);
    lemma_pow2_adds(23, 125);
    assert((1 * u) * u * 1 == half * (2 * u)) by (nonlinear_arith)
        requires
            u == 2 * half,
    ;
    rounding::lemma_round_ratio_ratio(24, (1 * u) * u, 2 * u, half, 1);
    assert(rounding::quanta(24, 0x3f00_0000) == half);
    rounding::lemma_round_of_quanta(24, 0x3f00_0000);
    lemma_packed(
        f.quotient(Binary32::of_integer(1).datum(), Binary32::of_integer(2).datum()),
    );
}

/// A ratio that is neither tiny nor huge becomes a finite number, off by at most one part
/// in `2^24`.
pub proof fn lemma_rounded_near(num: nat, den: nat)
    requires
        den > 0,
        den * pow2(23) <= num < den * pow2(276),
    ensures
        ({
            let f = Format::single();
            let d = f.rounded(false, num, den);
            &&& f.is_finite(d)
            &&& (f.size(d) * den) * 0x100_0000 <= num * 0x100_0001
            &&& (f.size(d) * den) * 0x100_0000 >= num * 0xff_ffff
        }),
{
    lemma_single_patterns();
    lemma2_to64();
    rounding::lemma_round_ratio_limit(24, num, den, 252);
    rounding::lemma_round_error(24, num, den);
}

impl Binary32 {
    pub open spec fn datum(self) -> Datum {
        Datum { negative: self.bits >= 0x8000_0000, magnitude: (self.bits % 0x8000_0000) as u64 }
    }

    pub open spec fn of_datum(d: Datum) -> Binary32 {
        Binary32 {
            bits: (d.magnitude + if d.negative { 0x8000_0000int } else { 0 }) as u32,
        }
    }

    pub open spec fn nan(self) -> bool {
        self.bits % 0x8000_0000 > 0x7f80_0000
    }

    pub open spec fn finite(self) -> bool {
        self.bits % 0x8000_0000 < 0x7f80_0000
    }

    /// Where the number stands in the order of the numbers. The two zeros stand at one
    /// place.
    pub open spec fn level(self) -> int {
        if self.bits >= 0x8000_0000 {
            0x8000_0000 - self.bits
        } else {
            self.bits as int
        }
    }

    pub open spec fn plus(self, other: Binary32) -> Binary32 {
        Binary32::of_datum(Format::single().sum(self.datum(), other.datum()))
    }

    pub open spec fn negated(self) -> Binary32 {
        let d = self.datum();
        Binary32::of_datum(Datum { negative: !d.negative, magnitude: d.magnitude })
    }

    pub open spec fn minus(self, other: Binary32) -> Binary32 {
        self.plus(other.negated())
    }

    pub open spec fn times(self, other: Binary32) -> Binary32 {
        Binary32::of_datum(Format::single().product(self.datum(), other.datum()))
    }

    pub open spec fn over(self, other: Binary32) -> Binary32 {
        Binary32::of_datum(Format::single().quotient(self.datum(), other.datum()))
    }

    pub open spec fn of_integer(n: nat) -> Binary32 {
        Binary32::of_datum(Format::single().of_integer(n))
    }

    /// The quotient of two integers.
    pub open spec fn ratio(a: nat, b: nat) -> Binary32 {
        Binary32::of_integer(a).over(Binary32::of_integer(b))
    }

    pub open spec fn integer_part(self, max: nat) -> nat {
        Format::single().integer_part(self.datum(), max)
    }

    /// `self >= other`, which is false of what is not a number.
    pub open spec fn at_least(self, other: Binary32) -> bool {
        !self.nan() && !other.nan() && self.level() >= other.level()
    }

    pub open spec fn above(self, other: Binary32) -> bool {
        !self.nan() && !other.nan() && !other.at_least(self)
    }

    /// The larger of two numbers; the one that is a number, if only one is.
    pub open spec fn larger(self, other: Binary32) -> Binary32 {
        if self.nan() || other.above(self) {
            other
        } else {
            self
        }
    }

    /// The smaller of two numbers; the one that is a number, if only one is.
    pub open spec fn smaller(self, other: Binary32) -> Binary32 {
        if self.nan() || self.above(other) {
            other
        } else {
            self
        }
    }

    pub open spec fn absolute(self) -> Binary32 {
        Binary32 { bits: self.bits % 0x8000_0000 }
    }

    pub fn from_bits(bits: u32) -> (r: Binary32)
        ensures
            r.bits == bits,
    {
        Binary32 { bits }
    }

    pub fn to_bits(self) -> (bits: u32)
        ensures
            bits == self.bits,
    {
        self.bits
    }

    fn unpack(self) -> (d: Datum)
        ensures
            d == self.datum(),
            d.magnitude < 0x8000_0000,
    {
        Datum { negative: self.bits >= 0x8000_0000, magnitude: (self.bits % 0x8000_0000) as u64 }
    }

    fn pack(d: Datum) -> (r: Binary32)
        requires
            d.magnitude < 0x8000_0000,
        ensures
            r == Binary32::of_datum(d),
            r.datum() == d,
    {
        let top: u32 = if d.negative { 0x8000_0000 } else { 0 };
        Binary32 { bits: d.magnitude as u32 + top }
    }

    pub fn add(self, other: Binary32) -> (r: Binary32)
        ensures
            r == self.plus(other),
    {
        proof {
            lemma_single_patterns();
        }
        Binary32::pack(Format::new_single().add(self.unpack(), other.unpack()))
    }

    pub fn negate(self) -> (r: Binary32)
        ensures
            r == self.negated(),
    {
        let d: Datum = self.unpack();
        Binary32::pack(Datum { negative: !d.negative, magnitude: d.magnitude })
    }

    pub fn subtract(self, other: Binary32) -> (r: Binary32)
        ensures
            r == self.minus(other),
    {
        self.add(other.negate())
    }

    pub fn multiply(self, other: Binary32) -> (r: Binary32)
        ensures
            r == self.times(other),
    {
        proof {
            lemma_single_patterns();
        }
        Binary32::pack(Format::new_single().multiply(self.unpack(), other.unpack()))
    }

    pub fn divide(self, other: Binary32) -> (r: Binary32)
        ensures
            r == self.over(other),
    {
        proof {
            lemma_single_patterns();
        }
        Binary32::pack(Format::new_single().divide(self.unpack(), other.unpack()))
    }

    pub fn from_integer(n: u64) -> (r: Binary32)
        ensures
            r == Binary32::of_integer(n as nat),
    {
        proof {
            lemma_single_patterns();
        }
        Binary32::pack(Format::new_single().from_integer(n))
    }

    pub fn from_ratio(a: u64, b: u64) -> (r: Binary32)
        ensures
            r == Binary32::ratio(a as nat, b as nat),
    {
        Binary32::from_integer(a).divide(Binary32::from_integer(b))
    }

    pub fn truncate(self, max: u64) -> (n: u64)
        ensures
            n == self.integer_part(max as nat),
            n <= max,
    {
        Format::new_single().truncate(self.unpack(), max)
    }

    pub fn is_nan(self) -> (r: bool)
        ensures
            r == self.nan(),
    {
        proof {
            lemma_single_patterns();
        }
        self.bits % 0x8000_0000 > 0x7f80_0000
    }

    pub fn is_finite(self) -> (r: bool)
        ensures
            r == self.finite(),
    {
        proof {
            lemma_single_patterns();
        }
        self.bits % 0x8000_0000 < 0x7f80_0000
    }

    /// `self >= other`.
    pub fn ge(self, other: Binary32) -> (r: bool)
        ensures
            r == self.at_least(other),
    {
        proof {
            lemma_single_patterns();
        }
        Format::new_single().compare_at_least(self.unpack(), other.unpack())
    }

    /// `self > other`.
    pub fn gt(self, other: Binary32) -> (r: bool)
        ensures
            r == self.above(other),
    {
        !self.is_nan() && !other.is_nan() && !other.ge(self)
    }

    pub fn max(self, other: Binary32) -> (r: Binary32)
        ensures
            r == self.larger(other),
    {
        if self.is_nan() || other.gt(self) {
            other
        } else {
            self
        }
    }

    pub fn min(self, other: Binary32) -> (r: Binary32)
        ensures
            r == self.smaller(other),
    {
        if self.is_nan() || self.gt(other) {
            other
        } else {
            self
        }
    }

    pub fn abs(self) -> (r: Binary32)
        ensures
            r == self.absolute(),
    {
        Binary32 { bits: self.bits % 0x8000_0000 }
    }

    /// The same number with more precision.
    pub open spec fn widened(self) -> Binary64 {
        Binary64::of_datum(Format::single().converted(Format::double(), self.datum()))
    }

    pub fn widen(self) -> (r: Binary64)
        ensures
            r == self.widened(),
    {
        proof {
            lemma_double_patterns();
        }
        Binary64::pack(Format::new_single().convert(Format::new_double(), self.unpack()))
    }
}

impl Binary64 {
    pub open spec fn datum(self) -> Datum {
        Datum {
            negative: self.bits >= 0x8000_0000_0000_0000,
            magnitude: self.bits % 0x8000_0000_0000_0000,
        }
    }

    pub open spec fn of_datum(d: Datum) -> Binary64 {
        Binary64 {
            bits: (d.magnitude + if d.negative { 0x8000_0000_0000_0000int } else { 0 }) as u64,
        }
    }

    pub open spec fn plus(self, other: Binary64) -> Binary64 {
        Binary64::of_datum(Format::double().sum(self.datum(), other.datum()))
    }

    pub open spec fn times(self, other: Binary64) -> Binary64 {
        Binary64::of_datum(Format::double().product(self.datum(), other.datum()))
    }

    pub open spec fn over(self, other: Binary64) -> Binary64 {
        Binary64::of_datum(Format::double().quotient(self.datum(), other.datum()))
    }

    pub open spec fn root(self) -> Binary64 {
        Binary64::of_datum(Format::double().root(self.datum()))
    }

    pub open spec fn of_integer(n: nat) -> Binary64 {
        Binary64::of_datum(Format::double().of_integer(n))
    }

    /// The nearest number of the narrower format.
    pub open spec fn narrowed(self) -> Binary32 {
        Binary32::of_datum(Format::double().converted(Format::single(), self.datum()))
    }

    pub fn from_bits(bits: u64) -> (r: Binary64)
        ensures
            r.bits == bits,
    {
        Binary64 { bits }
    }

    pub fn to_bits(self) -> (bits: u64)
        ensures
            bits == self.bits,
    {
        self.bits
    }

    fn unpack(self) -> (d: Datum)
        ensures
            d == self.datum(),
            d.magnitude < 0x8000_0000_0000_0000,
    {
        Datum {
            negative: self.bits >= 0x8000_0000_0000_0000,
            magnitude: self.bits % 0x8000_0000_0000_0000,
        }
    }

    fn pack(d: Datum) -> (r: Binary64)
        requires
            d.magnitude < 0x8000_0000_0000_0000,
        ensures
            r == Binary64::of_datum(d),
            r.datum() == d,
    {
        let top: u64 = if d.negative { 0x8000_0000_0000_0000 } else { 0 };
        Binary64 { bits: d.magnitude + top }
    }

    pub fn add(self, other: Binary64) -> (r: Binary64)
        ensures
            r == self.plus(other),
    {
        proof {
            lemma_double_patterns();
        }
        Binary64::pack(Format::new_double().add(self.unpack(), other.unpack()))
    }

    pub fn multiply(self, other: Binary64) -> (r: Binary64)
        ensures
            r == self.times(other),
    {
        proof {
            lemma_double_patterns();
        }
        Binary64::pack(Format::new_double().multiply(self.unpack(), other.unpack()))
    }

    pub fn divide(self, other: Binary64) -> (r: Binary64)
        ensures
            r == self.over(other),
    {
        proof {
            lemma_double_patterns();
        }
        Binary64::pack(Format::new_double().divide(self.unpack(), other.unpack()))
    }

    pub fn sqrt(self) -> (r: Binary64)
        ensures
            r == self.root(),
    {
        proof {
            lemma_double_patterns();
        }
        Binary64::pack(Format::new_double().square_root(self.unpack()))
    }

    pub fn from_integer(n: u64) -> (r: Binary64)
        ensures
            r == Binary64::of_integer(n as nat),
    {
        proof {
            lemma_double_patterns();
        }
        Binary64::pack(Format::new_double().from_integer(n))
    }

    pub fn narrow(self) -> (r: Binary32)
        ensures
            r == self.narrowed(),
    {
        proof {
            lemma_single_patterns();
        }
        Binary32::pack(Format::new_double().convert(Format::new_single(), self.unpack()))
    }
}

} // verus!
