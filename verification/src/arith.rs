//! Floating-point arithmetic on sign and magnitude patterns, in integers.
//!
//! One description serves every IEEE 754 binary format. Each operation is specified as
//! the exact result rounded once, to nearest with ties to even; the special data (zeros,
//! infinities, not-a-number) follow the standard. All not-a-number results are the same
//! quiet pattern.

use vstd::arithmetic::power2::*;
use vstd::arithmetic::div_mod::*;
use vstd::arithmetic::mul::*;
use vstd::prelude::*;

use crate::rounding;

verus! {

/// A binary interchange format.
#[derive(Clone, Copy, PartialEq, Eq, Structural)]
pub struct Format {
    /// Bits of the significand, the leading one counted.
    pub precision: u32,
    /// The quantum is `2^-unit`.
    pub unit: u32,
    /// The exponent field of the infinities.
    pub top: u32,
}

/// The sign and the magnitude pattern of a number.
#[derive(Clone, Copy, PartialEq, Eq, Structural)]
pub struct Datum {
    pub negative: bool,
    pub magnitude: u64,
}

/// `r` is the integer part of the square root of `n`.
pub open spec fn is_floor_root(r: nat, n: nat) -> bool {
    r * r <= n < (r + 1) * (r + 1)
}

/// The integer part of the square root of `n`.
pub open spec fn floor_root(n: nat) -> nat {
    choose|r: nat| is_floor_root(r, n)
}

impl Format {
    pub open spec fn p(self) -> nat {
        self.precision as nat
    }

    /// The pattern of the infinities; what is below is finite, what is above is not a number.
    pub open spec fn infinity(self) -> nat {
        self.top as nat * pow2((self.precision - 1) as nat)
    }

    pub open spec fn valid(self) -> bool {
        &&& 2 <= self.precision <= 53
        &&& 2 * self.precision + 5 <= self.unit <= 1074
        &&& 1 <= self.top <= 2047
    }

    /// The 32-bit format.
    pub open spec fn single() -> Format {
        Format { precision: 24, unit: 149, top: 255 }
    }

    /// The 64-bit format.
    pub open spec fn double() -> Format {
        Format { precision: 53, unit: 1074, top: 2047 }
    }

    pub open spec fn is_nan(self, d: Datum) -> bool {
        d.magnitude > self.infinity()
    }

    pub open spec fn is_infinite(self, d: Datum) -> bool {
        d.magnitude == self.infinity()
    }

    pub open spec fn is_finite(self, d: Datum) -> bool {
        d.magnitude < self.infinity()
    }

    /// The magnitude of a finite datum, in quanta.
    pub open spec fn size(self, d: Datum) -> nat {
        rounding::quanta(self.p(), d.magnitude as nat)
    }

    /// The value of a finite datum, in quanta.
    pub open spec fn value(self, d: Datum) -> int {
        if d.negative {
            -(self.size(d) as int)
        } else {
            self.size(d) as int
        }
    }

    /// The number nearest to `num / den` quanta; an infinity, if that is too large.
    pub open spec fn rounded(self, negative: bool, num: nat, den: nat) -> Datum {
        let pattern = rounding::round_ratio(self.p(), num, den);
        Datum {
            negative,
            magnitude: (if pattern < self.infinity() {
                pattern
            } else {
                self.infinity()
            }) as u64,
        }
    }

    pub open spec fn zero(self, negative: bool) -> Datum {
        Datum { negative, magnitude: 0 }
    }

    pub open spec fn infinite(self, negative: bool) -> Datum {
        Datum { negative, magnitude: self.infinity() as u64 }
    }

    /// The quiet not-a-number.
    pub open spec fn nan(self) -> Datum {
        Datum {
            negative: false,
            magnitude: (self.infinity() + pow2((self.precision - 2) as nat)) as u64,
        }
    }

    /// `a + b`.
    pub open spec fn sum(self, a: Datum, b: Datum) -> Datum {
        if self.is_nan(a) || self.is_nan(b) || (self.is_infinite(a) && self.is_infinite(b)
            && a.negative != b.negative) {
            self.nan()
        } else if self.is_infinite(a) {
            a
        } else if self.is_infinite(b) {
            b
        } else {
            let s = self.value(a) + self.value(b);
            if s == 0 {
                self.zero(a.negative && b.negative)
            } else {
                self.rounded(s < 0, (if s < 0 { -s } else { s }) as nat, 1)
            }
        }
    }

    /// `a * b`.
    pub open spec fn product(self, a: Datum, b: Datum) -> Datum {
        let negative = a.negative != b.negative;
        if self.is_nan(a) || self.is_nan(b) || (self.is_infinite(a) && b.magnitude == 0) || (
        self.is_infinite(b) && a.magnitude == 0) {
            self.nan()
        } else if self.is_infinite(a) || self.is_infinite(b) {
            self.infinite(negative)
        } else {
            self.rounded(negative, self.size(a) * self.size(b), pow2(self.unit as nat))
        }
    }

    /// `a / b`.
    pub open spec fn quotient(self, a: Datum, b: Datum) -> Datum {
        let negative = a.negative != b.negative;
        if self.is_nan(a) || self.is_nan(b) || (self.is_infinite(a) && self.is_infinite(b)) || (
        a.magnitude == 0 && b.magnitude == 0) {
            self.nan()
        } else if self.is_infinite(a) || b.magnitude == 0 {
            self.infinite(negative)
        } else if self.is_infinite(b) {
            self.zero(negative)
        } else {
            self.rounded(negative, self.size(a) * pow2(self.unit as nat), self.size(b))
        }
    }

    /// The square root of `d`. A root that is no whole number of quanta lies between two
    /// neighbouring ones, and all that lies between them rounds as their middle does: the
    /// roots of the numbers of a format have far more quanta than the precision tells apart.
    pub open spec fn root(self, d: Datum) -> Datum {
        if self.is_nan(d) || (d.negative && d.magnitude != 0) {
            self.nan()
        } else if d.magnitude == 0 || self.is_infinite(d) {
            d
        } else {
            let n = self.size(d) * pow2(self.unit as nat);
            let r = floor_root(n);
            if r * r == n {
                self.rounded(false, r, 1)
            } else {
                self.rounded(false, 2 * r + 1, 2)
            }
        }
    }

    /// The integer `n` as a number of the format.
    pub open spec fn of_integer(self, n: nat) -> Datum {
        self.rounded(false, n * pow2(self.unit as nat), 1)
    }

    /// The integer part of `d`, cut off at zero below and at `max` above; zero for what is
    /// not a number.
    pub open spec fn integer_part(self, d: Datum, max: nat) -> nat {
        if self.is_nan(d) || d.negative {
            0
        } else if self.is_infinite(d) {
            max
        } else {
            let n = self.size(d) / pow2(self.unit as nat);
            if n < max {
                n
            } else {
                max
            }
        }
    }

    /// Where `d` stands in the order of the numbers. The two zeros stand at one place.
    pub open spec fn level(self, d: Datum) -> int {
        if d.negative {
            -(d.magnitude as int)
        } else {
            d.magnitude as int
        }
    }

    /// `a >= b`, which is false of what is not a number.
    pub open spec fn at_least(self, a: Datum, b: Datum) -> bool {
        !self.is_nan(a) && !self.is_nan(b) && self.level(a) >= self.level(b)
    }

    /// The number of the format `to` that is nearest to `d`.
    pub open spec fn converted(self, to: Format, d: Datum) -> Datum {
        if self.is_nan(d) {
            to.nan()
        } else if self.is_infinite(d) {
            to.infinite(d.negative)
        } else {
            to.rounded(d.negative, self.size(d) * pow2(to.unit as nat), pow2(self.unit as nat))
        }
    }
}

pub proof fn lemma_infinity_bounds(f: Format)
    requires
        f.valid(),
    ensures
        0 < f.infinity() < 0x7ff0_0000_0000_0001,
        f.infinity() + pow2((f.precision - 2) as nat) < 0x8000_0000_0000_0000,
{
    let h = pow2((f.precision - 1) as nat);
    lemma2_to64();
    lemma2_to64_rest();
    rounding::lemma_pow2_le((f.precision - 1) as nat, 52);
    rounding::lemma_pow2_le((f.precision - 2) as nat, 51);
    assert(0 < f.top * h <= 2047 * 0x10_0000_0000_0000) by (nonlinear_arith)
        requires
            1 <= f.top <= 2047,
            0 < h <= 0x10_0000_0000_0000,
    ;
}

/// What a finite pattern stands for, taken apart.
proof fn lemma_split(f: Format, magnitude: nat, h: nat, m: nat, e: nat)
    requires
        f.valid(),
        h == pow2((f.precision - 1) as nat),
        e == (if magnitude / h == 0 { 0 } else { magnitude / h - 1 }),
        m == magnitude - e * h,
    ensures
        rounding::quanta(f.p(), magnitude) == m * pow2(e),
        m < pow2(f.p()),
        e > 0 ==> m >= h,
        magnitude < f.infinity() ==> e < f.top,
        magnitude == 0 <==> m * pow2(e) == 0,
{
    lemma_pow2_pos((f.precision - 1) as nat);
    lemma_pow2_unfold(f.p());
    lemma_pow2_pos(e);
    lemma_fundamental_div_mod(magnitude as int, h as int);
    lemma_mod_pos_bound(magnitude as int, h as int);
    let field = magnitude / h;
    let fraction = magnitude % h;
    lemma_pow2(0);
    reveal(vstd::arithmetic::power::pow);
    if field == 0 {
        assert(m * pow2(e) == m) by (nonlinear_arith)
            requires
                pow2(e) == 1,
        ;
        assert(h * field == 0) by (nonlinear_arith)
            requires
                field == 0,
        ;
        assert(e * h == 0) by (nonlinear_arith)
            requires
                e == 0,
        ;
    } else {
        assert(m == h + fraction) by (nonlinear_arith)
            requires
                m == magnitude - e * h,
                magnitude == h * field + fraction,
                e == field - 1,
        ;
        assert(m * pow2(e) > 0) by (nonlinear_arith)
            requires
                m > 0,
                pow2(e) > 0,
        ;
        assert(magnitude > 0) by (nonlinear_arith)
            requires
                magnitude == h * field + fraction,
                h > 0,
                field > 0,
                fraction >= 0,
        ;
    }
    if magnitude < f.infinity() {
        assert(field < f.top) by (nonlinear_arith)
            requires
                magnitude == h * field + fraction,
                magnitude < f.top * h,
                fraction >= 0,
                h > 0,
        ;
    }
}

/// The significand and the exponent of a finite datum.
pub proof fn lemma_significand(f: Format, d: Datum) -> (r: (nat, nat))
    requires
        f.valid(),
        f.is_finite(d),
    ensures
        r.0 < pow2(f.p()),
        r.1 < f.top,
        f.size(d) == r.0 * pow2(r.1),
{
    let h = pow2((f.precision - 1) as nat);
    let magnitude = d.magnitude as nat;
    lemma_pow2_pos((f.precision - 1) as nat);
    lemma_fundamental_div_mod(magnitude as int, h as int);
    lemma_mod_pos_bound(magnitude as int, h as int);
    let field = magnitude / h;
    let e: nat = if field == 0 {
        0
    } else {
        (field - 1) as nat
    };
    assert(e * h <= magnitude) by (nonlinear_arith)
        requires
            magnitude == h * field + magnitude % h,
            e <= field,
            h > 0,
    ;
    let m = (magnitude - e * h) as nat;
    lemma_split(f, magnitude, h, m, e);
    (m, e)
}

impl Format {
    pub fn new_single() -> (f: Format)
        ensures
            f == Format::single(),
            f.valid(),
    {
        Format { precision: 24, unit: 149, top: 255 }
    }

    pub fn new_double() -> (f: Format)
        ensures
            f == Format::double(),
            f.valid(),
    {
        Format { precision: 53, unit: 1074, top: 2047 }
    }

    fn infinity_pattern(self) -> (r: u64)
        requires
            self.valid(),
        ensures
            r == self.infinity(),
    {
        proof {
            lemma_infinity_bounds(self);
            lemma_pow2_pos((self.precision - 1) as nat);
            rounding::lemma_pow2_le((self.precision - 1) as nat, 52);
            lemma2_to64_rest();
            lemma2_to64();
        }
        let h: u64 = rounding::power_of_two(self.precision - 1) as u64;
        self.top as u64 * h
    }

    fn quiet_nan(self) -> (r: Datum)
        requires
            self.valid(),
        ensures
            r == self.nan(),
    {
        proof {
            lemma_infinity_bounds(self);
            rounding::lemma_pow2_le((self.precision - 2) as nat, 51);
            lemma2_to64_rest();
            lemma2_to64();
        }
        let q: u64 = rounding::power_of_two(self.precision - 2) as u64;
        Datum { negative: false, magnitude: self.infinity_pattern() + q }
    }

    /// Significand and exponent of a finite datum.
    fn split(self, d: Datum) -> (r: (u64, u32))
        requires
            self.valid(),
            self.is_finite(d),
        ensures
            self.size(d) == r.0 * pow2(r.1 as nat),
            r.0 < pow2(self.p()),
            r.1 > 0 ==> r.0 >= pow2((self.precision - 1) as nat),
            r.1 < self.top,
            d.magnitude == 0 <==> self.size(d) == 0,
            d.magnitude == r.1 * pow2((self.precision - 1) as nat) + r.0,
    {
        proof {
            rounding::lemma_pow2_le((self.precision - 1) as nat, 52);
            lemma2_to64_rest();
            lemma2_to64();
        }
        let h: u64 = rounding::power_of_two(self.precision - 1) as u64;
        let field: u64 = d.magnitude / h;
        proof {
            lemma_fundamental_div_mod(d.magnitude as int, h as int);
            lemma_mod_pos_bound(d.magnitude as int, h as int);
            assert(field < self.top) by (nonlinear_arith)
                requires
                    d.magnitude == h * field + d.magnitude % h,
                    d.magnitude < self.top * h,
                    0 <= d.magnitude % h,
                    h > 0,
            ;
        }
        let e: u64 = if field == 0 { 0 } else { field - 1 };
        proof {
            assert(e * h <= d.magnitude) by (nonlinear_arith)
                requires
                    d.magnitude == h * field + d.magnitude % h,
                    0 <= d.magnitude % h,
                    e <= field,
                    h > 0,
            ;
            lemma_split(self, d.magnitude as nat, h as nat, (d.magnitude - e * h) as nat, e as nat);
        }
        (d.magnitude - e * h, e as u32)
    }

    /// Rounds `m * 2^t` quanta.
    fn settle(self, negative: bool, m: u128, t: i32) -> (r: Datum)
        requires
            self.valid(),
            m < pow2(120),
            -10_000 <= t <= 10_000,
        ensures
            r == self.rounded(
                negative,
                rounding::scaled_num(m as nat, t as int),
                rounding::scaled_den(t as int),
            ),
    {
        let pattern: u128 = rounding::round_scaled(self.precision, m, t);
        let infinity: u64 = self.infinity_pattern();
        if pattern < infinity as u128 {
            Datum { negative, magnitude: pattern as u64 }
        } else {
            Datum { negative, magnitude: infinity }
        }
    }
}

/// The exponents of a format are small.
proof fn lemma_significand_bounds(f: Format)
    requires
        f.valid(),
    ensures
        pow2(f.p()) <= 0x20_0000_0000_0000,
        pow2(f.p()) == 2 * pow2((f.precision - 1) as nat),
        pow2((f.precision - 1) as nat) > 0,
        pow2(120) == 0x100_0000_0000_0000_0000_0000_0000_0000,
{
    rounding::lemma_pow2_le(f.p(), 53);
    lemma2_to64_rest();
    lemma2_to64();
    lemma_pow2_unfold(f.p());
    lemma_pow2_pos((f.precision - 1) as nat);
    lemma_pow2_adds(60, 60);
    assert(pow2(120) == 0x100_0000_0000_0000_0000_0000_0000_0000) by (nonlinear_arith)
        requires
            pow2(120) == pow2(60) * pow2(60),
            pow2(60) == 0x1000_0000_0000_0000,
    ;
}

/// Two ways to write one ratio round alike.
proof fn lemma_rounded_ratio(f: Format, negative: bool, n1: nat, d1: nat, n2: nat, d2: nat)
    requires
        f.valid(),
        d1 > 0,
        d2 > 0,
        n1 * d2 == n2 * d1,
    ensures
        f.rounded(negative, n1, d1) == f.rounded(negative, n2, d2),
{
    rounding::lemma_round_ratio_ratio(f.p(), n1, d1, n2, d2);
}

proof fn lemma_scaled(m: nat, t: int, a: nat, b: nat)
    requires
        t == a - b,
    ensures
        rounding::scaled_den(t) > 0,
        pow2(b) > 0,
        rounding::scaled_num(m, t) * pow2(b) == (m * pow2(a)) * rounding::scaled_den(t),
{
    lemma_pow2_pos(b);
    if t >= 0 {
        lemma_pow2_adds(t as nat, b);
        assert(m * pow2(t as nat) * pow2(b) == m * pow2(a) * 1) by (nonlinear_arith)
            requires
                pow2(a) == pow2(t as nat) * pow2(b),
        ;
    } else {
        lemma_pow2_pos((-t) as nat);
        lemma_pow2_adds((-t) as nat, a);
        assert(m * pow2(b) == m * pow2(a) * pow2((-t) as nat)) by (nonlinear_arith)
            requires
                pow2(b) == pow2((-t) as nat) * pow2(a),
        ;
    }
}

impl Format {
    pub fn multiply(self, a: Datum, b: Datum) -> (r: Datum)
        requires
            self.valid(),
        ensures
            r == self.product(a, b),
    {
        let infinity: u64 = self.infinity_pattern();
        let negative: bool = a.negative != b.negative;
        if a.magnitude > infinity || b.magnitude > infinity {
            return self.quiet_nan();
        }
        if a.magnitude == infinity || b.magnitude == infinity {
            proof {
                lemma_infinity_bounds(self);
            }
            if a.magnitude == 0 || b.magnitude == 0 {
                return self.quiet_nan();
            }
            return Datum { negative, magnitude: infinity };
        }
        let (ma, ea) = self.split(a);
        let (mb, eb) = self.split(b);
        proof {
            lemma_significand_bounds(self);
            assert(ma * mb < 0x20_0000_0000_0000 * 0x20_0000_0000_0000) by (nonlinear_arith)
                requires
                    0 <= ma < 0x20_0000_0000_0000,
                    0 <= mb < 0x20_0000_0000_0000,
            ;
        }
        let m: u128 = ma as u128 * mb as u128;
        let t: i32 = (ea + eb) as i32 - self.unit as i32;
        proof {
            let e = (ea + eb) as nat;
            lemma_scaled(m as nat, t as int, e, self.unit as nat);
            lemma_pow2_adds(ea as nat, eb as nat);
            let x = pow2(ea as nat);
            let y = pow2(eb as nat);
            assert(self.size(a) * self.size(b) == m * pow2(e)) by (nonlinear_arith)
                requires
                    self.size(a) == ma * x,
                    self.size(b) == mb * y,
                    m == ma * mb,
                    pow2(e) == x * y,
            ;
            lemma_rounded_ratio(
                self,
                negative,
                rounding::scaled_num(m as nat, t as int),
                rounding::scaled_den(t as int),
                self.size(a) * self.size(b),
                pow2(self.unit as nat),
            );
        }
        self.settle(negative, m, t)
    }

    pub fn from_integer(self, n: u64) -> (r: Datum)
        requires
            self.valid(),
        ensures
            r == self.of_integer(n as nat),
    {
        proof {
            lemma_significand_bounds(self);
        }
        self.settle(false, n as u128, self.unit as i32)
    }

    pub fn convert(self, to: Format, d: Datum) -> (r: Datum)
        requires
            self.valid(),
            to.valid(),
        ensures
            r == self.converted(to, d),
    {
        let infinity: u64 = self.infinity_pattern();
        if d.magnitude > infinity {
            return to.quiet_nan();
        }
        if d.magnitude == infinity {
            proof {
                lemma_infinity_bounds(to);
            }
            return Datum { negative: d.negative, magnitude: to.infinity_pattern() };
        }
        let (m, e) = self.split(d);
        let t: i32 = (e + to.unit) as i32 - self.unit as i32;
        proof {
            lemma_significand_bounds(self);
            let a = (e + to.unit) as nat;
            lemma_scaled(m as nat, t as int, a, self.unit as nat);
            lemma_pow2_adds(e as nat, to.unit as nat);
            assert(self.size(d) * pow2(to.unit as nat) == m * pow2(a)) by (nonlinear_arith)
                requires
                    self.size(d) == m * pow2(e as nat),
                    pow2(a) == pow2(e as nat) * pow2(to.unit as nat),
            ;
            lemma_rounded_ratio(
                to,
                d.negative,
                rounding::scaled_num(m as nat, t as int),
                rounding::scaled_den(t as int),
                self.size(d) * pow2(to.unit as nat),
                pow2(self.unit as nat),
            );
        }
        to.settle(d.negative, m as u128, t)
    }

    pub fn truncate(self, d: Datum, max: u64) -> (n: u64)
        requires
            self.valid(),
        ensures
            n == self.integer_part(d, max as nat),
    {
        let infinity: u64 = self.infinity_pattern();
        if d.magnitude > infinity || d.negative {
            return 0;
        }
        if d.magnitude == infinity {
            return max;
        }
        let (m, e) = self.split(d);
        let ghost unit = pow2(self.unit as nat);
        proof {
            lemma_significand_bounds(self);
            lemma_pow2_pos(self.unit as nat);
        }
        if e >= self.unit {
            let s: u32 = e - self.unit;
            let ghost x = pow2(s as nat);
            proof {
                lemma_pow2_pos(s as nat);
                lemma_pow2_adds(s as nat, self.unit as nat);
                assert(self.size(d) == (m * x) * unit) by (nonlinear_arith)
                    requires
                        self.size(d) == m * pow2(e as nat),
                        pow2(e as nat) == x * unit,
                ;
                lemma_div_by_multiple((m * x) as int, unit as int);
                if m == 0 {
                    assert(m * x == 0) by (nonlinear_arith)
                        requires
                            m == 0,
                    ;
                }
            }
            if m == 0 {
                return 0;
            }
            if s >= 64 {
                proof {
                    rounding::lemma_pow2_le(64, s as nat);
                    lemma2_to64();
                    assert(m * x >= 0x1_0000_0000_0000_0000) by (nonlinear_arith)
                        requires
                            m >= 1,
                            x >= 0x1_0000_0000_0000_0000,
                    ;
                }
                return max;
            }
            proof {
                rounding::lemma_pow2_le(s as nat, 64);
                lemma2_to64();
                assert(m * x < 0x20_0000_0000_0000 * 0x1_0000_0000_0000_0001) by (nonlinear_arith)
                    requires
                        0 <= m < 0x20_0000_0000_0000,
                        0 <= x <= 0x1_0000_0000_0000_0000,
                ;
            }
            let n: u128 = m as u128 * rounding::power_of_two(s);
            if n < max as u128 {
                n as u64
            } else {
                max
            }
        } else {
            let s: u32 = self.unit - e;
            let ghost x = pow2(s as nat);
            proof {
                lemma_pow2_pos(s as nat);
                lemma_pow2_pos(e as nat);
                lemma_pow2_adds(s as nat, e as nat);
                // (m * 2^e) / (2^s * 2^e) == m / 2^s
                lemma_fundamental_div_mod(m as int, x as int);
                lemma_mod_pos_bound(m as int, x as int);
                let w = pow2(e as nat);
                let k = m as int / x as int;
                let r = m as int % x as int;
                assert(self.size(d) == k * unit + r * w && 0 <= r * w < unit) by (nonlinear_arith)
                    requires
                        self.size(d) == m * w,
                        unit == x * w,
                        m == x * k + r,
                        0 <= r < x,
                        w > 0,
                ;
                lemma_fundamental_div_mod_converse(self.size(d) as int, unit as int, k, r * w);
            }
            let n: u64 = if s >= 64 {
                proof {
                    rounding::lemma_pow2_le(64, s as nat);
                    lemma2_to64();
                    lemma_basic_div(m as int, x as int);
                }
                0
            } else {
                proof {
                    rounding::lemma_pow2_le(s as nat, 63);
                    lemma2_to64_rest();
                }
                m / rounding::power_of_two(s) as u64
            };
            if n < max {
                n
            } else {
                max
            }
        }
    }

    /// `a >= b`.
    pub fn compare_at_least(self, a: Datum, b: Datum) -> (r: bool)
        requires
            self.valid(),
        ensures
            r == self.at_least(a, b),
    {
        let infinity: u64 = self.infinity_pattern();
        if a.magnitude > infinity || b.magnitude > infinity {
            false
        } else if a.negative {
            if b.negative {
                a.magnitude <= b.magnitude
            } else {
                a.magnitude == 0 && b.magnitude == 0
            }
        } else {
            b.negative || a.magnitude >= b.magnitude
        }
    }
}

/// Larger patterns stand for larger magnitudes, and have no smaller exponent.
proof fn lemma_split_order(h: nat, mx: nat, ex: nat, my: nat, ey: nat)
    requires
        h > 0,
        mx < 2 * h,
        my < 2 * h,
        ex > 0 ==> mx >= h,
        ey > 0 ==> my >= h,
        ex * h + mx >= ey * h + my,
    ensures
        ex >= ey,
        mx * pow2(ex) >= my * pow2(ey),
        ex * h + mx > ey * h + my ==> mx * pow2(ex) > my * pow2(ey),
{
    lemma_pow2_pos(ex);
    lemma_pow2_pos(ey);
    assert(ex >= ey) by (nonlinear_arith)
        requires
            mx < 2 * h,
            ey > 0 ==> my >= h,
            ex * h + mx >= ey * h + my,
            ex >= 0,
            my >= 0,
            h > 0,
    ;
    let x = pow2(ex);
    let y = pow2(ey);
    if ex == ey {
        assert(mx >= my);
        assert(mx * x >= my * x) by (nonlinear_arith)
            requires
                mx >= my,
                x > 0,
        ;
        if mx > my {
            assert(mx * x > my * x) by (nonlinear_arith)
                requires
                    mx > my,
                    x > 0,
            ;
        }
    } else {
        lemma_pow2_unfold(ex);
        rounding::lemma_pow2_le(ey, (ex - 1) as nat);
        assert(mx * x > my * y) by (nonlinear_arith)
            requires
                mx >= h,
                my < 2 * h,
                x >= 2 * y,
                y > 0,
        ;
    }
}

/// In the order of the numbers: `level` compares finite data as their values do.
pub proof fn lemma_level_orders_values(f: Format, a: Datum, b: Datum)
    requires
        f.valid(),
        f.is_finite(a),
        f.is_finite(b),
    ensures
        f.level(a) <= f.level(b) <==> f.value(a) <= f.value(b),
        f.size(a) <= f.size(b) <==> a.magnitude <= b.magnitude,
        f.size(a) == 0 <==> a.magnitude == 0,
        f.size(b) == 0 <==> b.magnitude == 0,
{
    let h = pow2((f.precision - 1) as nat);
    lemma_significand_bounds(f);
    let fa = a.magnitude as nat / h;
    let fb = b.magnitude as nat / h;
    let ea: nat = if fa == 0 { 0 } else { (fa - 1) as nat };
    let eb: nat = if fb == 0 { 0 } else { (fb - 1) as nat };
    lemma_fundamental_div_mod(a.magnitude as int, h as int);
    lemma_fundamental_div_mod(b.magnitude as int, h as int);
    lemma_mod_pos_bound(a.magnitude as int, h as int);
    lemma_mod_pos_bound(b.magnitude as int, h as int);
    assert(ea * h <= a.magnitude) by (nonlinear_arith)
        requires
            a.magnitude == h * fa + a.magnitude as int % h as int,
            0 <= a.magnitude as int % h as int,
            ea <= fa,
            h > 0,
    ;
    assert(eb * h <= b.magnitude) by (nonlinear_arith)
        requires
            b.magnitude == h * fb + b.magnitude as int % h as int,
            0 <= b.magnitude as int % h as int,
            eb <= fb,
            h > 0,
    ;
    let ma = (a.magnitude - ea * h) as nat;
    let mb = (b.magnitude - eb * h) as nat;
    lemma_split(f, a.magnitude as nat, h, ma, ea);
    lemma_split(f, b.magnitude as nat, h, mb, eb);
    if a.magnitude >= b.magnitude {
        lemma_split_order(h, ma, ea, mb, eb);
    }
    if b.magnitude >= a.magnitude {
        lemma_split_order(h, mb, eb, ma, ea);
    }
}

impl Format {
    /// The sum of two finite data, the first at least as large in magnitude.
    fn add_ordered(self, x: Datum, y: Datum) -> (r: Datum)
        requires
            self.valid(),
            self.is_finite(x),
            self.is_finite(y),
            x.magnitude >= y.magnitude,
        ensures
            r == self.sum(x, y),
            r == self.sum(y, x),
    {
        let (mx, ex) = self.split(x);
        let (my, ey) = self.split(y);
        let ghost h = pow2((self.precision - 1) as nat);
        let ghost px = pow2(ex as nat);
        let ghost py = pow2(ey as nat);
        let ghost sx = self.size(x);
        let ghost sy = self.size(y);
        proof {
            lemma_significand_bounds(self);
            lemma_split_order(h, mx as nat, ex as nat, my as nat, ey as nat);
            lemma_pow2_pos(ex as nat);
            lemma_pow2_pos(ey as nat);
        }
        let same: bool = x.negative == y.negative;
        if y.magnitude == 0 {
            // Adding zero changes only the sign of another zero.
            if x.magnitude == 0 {
                return Datum { negative: x.negative && y.negative, magnitude: 0 };
            }
            proof {
                lemma_scaled(mx as nat, ex as int, ex as nat, 0);
                lemma_pow2(0);
                reveal(vstd::arithmetic::power::pow);
                lemma_rounded_ratio(
                    self,
                    x.negative,
                    rounding::scaled_num(mx as nat, ex as int),
                    rounding::scaled_den(ex as int),
                    sx,
                    1,
                );
            }
            return self.settle(x.negative, mx as u128, ex as i32);
        }
        let gap: u32 = ex - ey;
        if gap <= self.precision + 1 {
            let ghost g = pow2(gap as nat);
            proof {
                rounding::lemma_pow2_le(gap as nat, 54);
                lemma2_to64_rest();
                lemma2_to64();
                lemma_pow2_adds(gap as nat, ey as nat);
                assert(mx * g < 0x20_0000_0000_0000 * 0x40_0000_0000_0001) by (nonlinear_arith)
                    requires
                        0 <= mx < 0x20_0000_0000_0000,
                        0 <= g <= 0x40_0000_0000_0000,
                ;
                assert(sx == (mx * g) * py) by (nonlinear_arith)
                    requires
                        sx == mx * px,
                        px == g * py,
                ;
            }
            let wide: u128 = mx as u128 * rounding::power_of_two(gap);
            proof {
                assert(wide >= my) by (nonlinear_arith)
                    requires
                        wide * py >= my * py,
                        py > 0,
                ;
            }
            let m: u128 = if same { wide + my as u128 } else { wide - my as u128 };
            if m == 0 {
                proof {
                    assert(sx == sy);
                }
                return Datum { negative: false, magnitude: 0 };
            }
            proof {
                let total: int = if same { sx as int + sy } else { sx - sy };
                assert(total == m * py) by (nonlinear_arith)
                    requires
                        sx == wide * py,
                        sy == my * py,
                        same ==> m == wide + my,
                        !same ==> m == wide - my,
                        same ==> total == sx + sy,
                        !same ==> total == sx - sy,
                ;
                assert(total > 0) by (nonlinear_arith)
                    requires
                        total == m * py,
                        m > 0,
                        py > 0,
                ;
                lemma_scaled(m as nat, ey as int, ey as nat, 0);
                lemma_pow2(0);
                reveal(vstd::arithmetic::power::pow);
                lemma_rounded_ratio(
                    self,
                    x.negative,
                    rounding::scaled_num(m as nat, ey as int),
                    rounding::scaled_den(ey as int),
                    total as nat,
                    1,
                );
            }
            return self.settle(x.negative, m, ey as i32);
        }
        // The smaller one only decides on which side of `4 * mx` quarters the sum lies.
        let m0: u128 = if same { 4 * mx as u128 } else { 4 * mx as u128 - 1 };
        proof {
            let u = pow2((ex - 2) as nat);
            lemma_pow2_pos((ex - 2) as nat);
            lemma_pow2_unfold(ex as nat);
            lemma_pow2_unfold((ex - 1) as nat);
            lemma_pow2_adds(self.p(), ey as nat);
            rounding::lemma_pow2_le(self.p() + ey as nat, (ex - 2) as nat);
            assert(sy < u) by (nonlinear_arith)
                requires
                    sy == my * py,
                    my < pow2(self.p()),
                    py > 0,
                    pow2(self.p()) * py <= u,
            ;
            let total: int = if same { sx as int + sy } else { sx - sy };
            let r: int = if same { sy as int } else { u - sy };
            assert(sx == 4 * mx * u) by (nonlinear_arith)
                requires
                    sx == mx * px,
                    px == 4 * u,
            ;
            assert(total == m0 * u + r) by (nonlinear_arith)
                requires
                    sx == 4 * mx * u,
                    same ==> m0 == 4 * mx && total == sx + sy && r == sy,
                    !same ==> m0 == 4 * mx - 1 && total == sx - sy && r == u - sy,
            ;
            assert(sy > 0);
            lemma_pow2(0);
            reveal(vstd::arithmetic::power::pow);
            assert(1 * pow2((ex - 2) as nat) == u * pow2(0)) by (nonlinear_arith)
                requires
                    u == pow2((ex - 2) as nat),
                    pow2(0) == 1,
            ;
            assert(m0 * u >= 0) by (nonlinear_arith)
                requires
                    m0 >= 0,
                    u >= 0,
            ;
            rounding::lemma_round_sticky(
                self.p(),
                total as nat,
                1,
                u,
                m0 as nat,
                r as nat,
                (ex - 2) as nat,
                0,
            );
            let m = (2 * m0 + 1) as nat;
            lemma_scaled(m, ex - 3, (ex - 2) as nat, 1);
            assert(pow2(1) == 2) by {
                lemma_pow2_unfold(1);
            }
            rounding::lemma_round_ratio_ratio(
                self.p(),
                rounding::scaled_num(m, ex - 3),
                rounding::scaled_den(ex - 3),
                m * u,
                2,
            );
            assert(total > 0);
        }
        self.settle(x.negative, 2 * m0 + 1, ex as i32 - 3)
    }

    pub fn add(self, a: Datum, b: Datum) -> (r: Datum)
        requires
            self.valid(),
        ensures
            r == self.sum(a, b),
    {
        let infinity: u64 = self.infinity_pattern();
        if a.magnitude > infinity || b.magnitude > infinity {
            return self.quiet_nan();
        }
        if a.magnitude == infinity {
            if b.magnitude == infinity && a.negative != b.negative {
                return self.quiet_nan();
            }
            return a;
        }
        if b.magnitude == infinity {
            return b;
        }
        if a.magnitude >= b.magnitude {
            self.add_ordered(a, b)
        } else {
            self.add_ordered(b, a)
        }
    }
}

/// The quotient `q` of `ma * 2^s` by `mb`, with the remainder `r`, stands for the quotient
/// of the two data.
proof fn lemma_quotient(f: Format, ma: nat, ea: nat, mb: nat, eb: nat, s: nat, q: nat, r: nat)
    requires
        f.valid(),
        mb > 0,
        ma * pow2(s) == q * mb + r,
        r < mb,
        r > 0 ==> q >= pow2(f.p()),
    ensures
        ({
            let num = ma * pow2(ea) * pow2(f.unit as nat);
            let den = mb * pow2(eb);
            let t = ea + f.unit - eb - s;
            &&& den > 0
            &&& r == 0 ==> rounding::round_ratio(f.p(), num, den) == rounding::round_ratio(
                f.p(),
                rounding::scaled_num(q, t),
                rounding::scaled_den(t),
            )
            &&& r > 0 ==> rounding::round_ratio(f.p(), num, den) == rounding::round_ratio(
                f.p(),
                rounding::scaled_num(2 * q + 1, t - 1),
                rounding::scaled_den(t - 1),
            )
        }),
{
    let p = f.p();
    let a = ea + f.unit as nat;
    let b = eb + s;
    let t = a - b;
    let w = pow2(a);
    let z = pow2(s);
    let num = ma * pow2(ea) * pow2(f.unit as nat);
    let den = mb * pow2(eb);
    lemma_pow2_adds(ea, f.unit as nat);
    lemma_pow2_adds(eb, s);
    lemma_pow2_pos(a);
    lemma_pow2_pos(b);
    lemma_pow2_pos(s);
    lemma_pow2_pos(eb);
    assert(den > 0) by (nonlinear_arith)
        requires
            den == mb * pow2(eb),
            mb > 0,
            pow2(eb) > 0,
    ;
    let num1 = num * z;
    let den1 = den * z;
    let u = mb * w;
    assert(num1 == q * u + r * w) by (nonlinear_arith)
        requires
            num1 == num * z,
            num == ma * pow2(ea) * pow2(f.unit as nat),
            w == pow2(ea) * pow2(f.unit as nat),
            ma * z == q * mb + r,
            u == mb * w,
    ;
    assert(den1 == mb * pow2(b)) by (nonlinear_arith)
        requires
            den1 == den * z,
            den == mb * pow2(eb),
            pow2(b) == pow2(eb) * z,
    ;
    assert(den1 > 0 && u > 0) by (nonlinear_arith)
        requires
            den1 == den * z,
            den > 0,
            z > 0,
            u == mb * w,
            mb > 0,
            w > 0,
    ;
    assert(num * den1 == num1 * den) by (nonlinear_arith)
        requires
            num1 == num * z,
            den1 == den * z,
    ;
    rounding::lemma_round_ratio_ratio(p, num, den, num1, den1);
    if r == 0 {
        lemma_scaled(q, t, a, b);
        let sn = rounding::scaled_num(q, t);
        let sd = rounding::scaled_den(t);
        assert(num1 * sd == sn * den1) by (nonlinear_arith)
            requires
                num1 == q * u + r * w,
                r == 0,
                u == mb * w,
                den1 == mb * pow2(b),
                sn * pow2(b) == (q * w) * sd,
        ;
        rounding::lemma_round_ratio_ratio(p, num1, den1, sn, sd);
    } else {
        assert(0 < r * w < u) by (nonlinear_arith)
            requires
                0 < r < mb,
                w > 0,
                u == mb * w,
        ;
        assert(den1 * w == u * pow2(b)) by (nonlinear_arith)
            requires
                den1 == mb * pow2(b),
                u == mb * w,
        ;
        rounding::lemma_round_sticky(p, num1, den1, u, q, r * w, a, b);
        lemma_pow2_unfold(b + 1);
        lemma_scaled(2 * q + 1, t - 1, a, b + 1);
        rounding::lemma_round_ratio_ratio(
            p,
            (2 * q + 1) * w,
            2 * pow2(b),
            rounding::scaled_num(2 * q + 1, t - 1),
            rounding::scaled_den(t - 1),
        );
    }
}

/// A number with a leading one at the top of the precision, and more to divide below it.
proof fn lemma_dividend(f: Format, ma: nat, n: nat, s: nat)
    requires
        f.valid(),
        ma < pow2(f.p()),
        ma < pow2(n),
        n > 0,
        ma >= pow2((n - 1) as nat),
        n + s == 2 * f.p() + 2,
    ensures
        n <= f.p(),
        pow2(2 * f.p() + 1) <= ma * pow2(s) < pow2(2 * f.p() + 2),
        pow2(2 * f.p() + 2) <= 0x1000_0000_0000_0000_0000_0000_0000,
        pow2(2 * f.p() + 1) == 2 * (pow2(f.p()) * pow2(f.p())),
{
    let p = f.p();
    if n > p {
        rounding::lemma_pow2_le(p, (n - 1) as nat);
    }
    lemma_pow2_pos(s);
    lemma_pow2_adds(n, s);
    lemma_pow2_adds((n - 1) as nat, s);
    assert((n - 1) as nat + s == 2 * p + 1);
    assert(pow2((n - 1) as nat) * pow2(s) <= ma * pow2(s) < pow2(n) * pow2(s)) by (nonlinear_arith)
        requires
            pow2((n - 1) as nat) <= ma < pow2(n),
            pow2(s) > 0,
    ;
    lemma_pow2_adds(p, p);
    lemma_pow2_unfold(2 * p + 1);
    rounding::lemma_pow2_le(2 * p + 2, 108);
    lemma_pow2_adds(54, 54);
    lemma2_to64_rest();
    assert(pow2(108) == 0x1000_0000_0000_0000_0000_0000_0000) by (nonlinear_arith)
        requires
            pow2(108) == pow2(54) * pow2(54),
            pow2(54) == 0x40_0000_0000_0000,
    ;
}

impl Format {
    pub fn divide(self, a: Datum, b: Datum) -> (r: Datum)
        requires
            self.valid(),
        ensures
            r == self.quotient(a, b),
    {
        let infinity: u64 = self.infinity_pattern();
        let negative: bool = a.negative != b.negative;
        if a.magnitude > infinity || b.magnitude > infinity {
            return self.quiet_nan();
        }
        proof {
            lemma_infinity_bounds(self);
        }
        if a.magnitude == infinity {
            if b.magnitude == infinity {
                return self.quiet_nan();
            }
            return Datum { negative, magnitude: infinity };
        }
        if b.magnitude == 0 {
            if a.magnitude == 0 {
                return self.quiet_nan();
            }
            return Datum { negative, magnitude: infinity };
        }
        if b.magnitude == infinity {
            return Datum { negative, magnitude: 0 };
        }
        let (ma, ea) = self.split(a);
        let (mb, eb) = self.split(b);
        let ghost num = self.size(a) * pow2(self.unit as nat);
        let ghost den = self.size(b);
        proof {
            lemma_significand_bounds(self);
        }
        if a.magnitude == 0 {
            proof {
                let sn = rounding::scaled_num(0, 0);
                lemma_pow2(0);
                reveal(vstd::arithmetic::power::pow);
                assert(sn * den == num * 1) by (nonlinear_arith)
                    requires
                        sn == 0 * pow2(0),
                        num == 0 * pow2(self.unit as nat),
                ;
                lemma_rounded_ratio(self, negative, sn, 1, num, den);
            }
            return self.settle(negative, 0, 0);
        }
        proof {
            lemma_pow2_pos(ea as nat);
            lemma_pow2_pos(eb as nat);
            assert(ma > 0) by (nonlinear_arith)
                requires
                    ma * pow2(ea as nat) > 0,
                    ma >= 0,
            ;
            assert(mb > 0) by (nonlinear_arith)
                requires
                    mb * pow2(eb as nat) > 0,
                    mb >= 0,
            ;
        }
        let n: u32 = rounding::bit_length(ma as u128);
        proof {
            lemma_pow2(0);
            reveal(vstd::arithmetic::power::pow);
            if n > self.precision {
                rounding::lemma_pow2_le(self.p(), (n - 1) as nat);
            }
        }
        let s: u32 = 2 * self.precision + 2 - n;
        proof {
            lemma_dividend(self, ma as nat, n as nat, s as nat);
        }
        let dividend: u128 = ma as u128 * rounding::power_of_two(s);
        let q: u128 = dividend / mb as u128;
        let r: u128 = dividend % mb as u128;
        proof {
            lemma_fundamental_div_mod(dividend as int, mb as int);
            lemma_mod_pos_bound(dividend as int, mb as int);
            let top = pow2(self.p());
            assert(q >= top) by (nonlinear_arith)
                requires
                    dividend == mb * q + r,
                    r < mb,
                    0 < mb < top,
                    dividend >= 2 * (top * top),
                    q >= 0,
            ;
            lemma_div_nonincreasing(dividend as int, mb as int);
            assert(dividend == q * mb + r) by (nonlinear_arith)
                requires
                    dividend == mb * q + r,
            ;
            lemma_quotient(
                self,
                ma as nat,
                ea as nat,
                mb as nat,
                eb as nat,
                s as nat,
                q as nat,
                r as nat,
            );
        }
        let t: i32 = (ea + self.unit) as i32 - (eb + s) as i32;
        if r == 0 {
            self.settle(negative, q, t)
        } else {
            self.settle(negative, 2 * q + 1, t - 1)
        }
    }
}

proof fn lemma_floor_root_exists(n: nat)
    ensures
        exists|r: nat| is_floor_root(r, n),
    decreases n,
{
    if n == 0 {
        assert(is_floor_root(0, 0)) by (nonlinear_arith);
    } else {
        let before = (n - 1) as nat;
        lemma_floor_root_exists(before);
        let r = choose|r: nat| is_floor_root(r, before);
        if (r + 1) * (r + 1) <= n {
            assert((r + 1) * (r + 1) < (r + 2) * (r + 2)) by (nonlinear_arith);
            assert(is_floor_root(r + 1, n));
        } else {
            assert(is_floor_root(r, n));
        }
    }
}

/// There is one integer part of a root.
pub proof fn lemma_floor_root(n: nat)
    ensures
        is_floor_root(floor_root(n), n),
        forall|r: nat| #[trigger] is_floor_root(r, n) ==> r == floor_root(n),
{
    lemma_floor_root_exists(n);
    let c = floor_root(n);
    assert forall|r: nat| #[trigger] is_floor_root(r, n) implies r == c by {
        if r < c {
            assert((r + 1) * (r + 1) <= c * c) by (nonlinear_arith)
                requires
                    r + 1 <= c,
            ;
        } else if c < r {
            assert((c + 1) * (c + 1) <= r * r) by (nonlinear_arith)
                requires
                    c + 1 <= r,
            ;
        }
    }
}

/// Integer square root, bit by bit from the top.
fn integer_root(n: u128) -> (r: u128)
    requires
        n < pow2(112),
    ensures
        is_floor_root(r as nat, n as nat),
        r < pow2(56),
{
    let mut i: u32 = 56;
    let mut r: u128 = 0;
    proof {
        lemma_pow2_adds(56, 56);
        lemma2_to64_rest();
        lemma_pow2(0);
        reveal(vstd::arithmetic::power::pow);
        assert((0 + pow2(56)) * (0 + pow2(56)) == pow2(56) * pow2(56));
    }
    while i > 0
        invariant
            i <= 56,
            r * r <= n < (r + pow2(i as nat)) * (r + pow2(i as nat)),
            n < pow2(112),
            r < pow2(56),
            pow2(112) == pow2(56) * pow2(56),
            pow2(56) == 0x100_0000_0000_0000,
            pow2(0) == 1,
        decreases i,
    {
        proof {
            lemma_pow2_unfold(i as nat);
            rounding::lemma_pow2_le((i - 1) as nat, 56);
        }
        i = i - 1;
        let b: u128 = rounding::power_of_two(i);
        let c: u128 = r + b;
        proof {
            assert(c * c <= 0x200_0000_0000_0000 * 0x200_0000_0000_0000) by (nonlinear_arith)
                requires
                    0 <= c <= 0x200_0000_0000_0000,
            ;
        }
        if c * c <= n {
            proof {
                assert(c < pow2(56)) by (nonlinear_arith)
                    requires
                        c * c < pow2(56) * pow2(56),
                        c >= 0,
                ;
                assert(r + 2 * b == c + b);
            }
            r = c;
        }
    }
    r
}

/// What the exact and the inexact integer root of `n` tell of the root of `n * 4^k`.
proof fn lemma_root(f: Format, n: nat, r: nat, k: nat)
    requires
        f.valid(),
        is_floor_root(r, n),
        r >= pow2(f.p()),
    ensures
        ({
            let big = n * (pow2(k) * pow2(k));
            let whole = floor_root(big);
            let target = if whole * whole == big {
                f.rounded(false, whole, 1)
            } else {
                f.rounded(false, 2 * whole + 1, 2)
            };
            &&& r * r == n ==> target == f.rounded(
                false,
                rounding::scaled_num(r, k as int),
                rounding::scaled_den(k as int),
            )
            &&& r * r != n ==> target == f.rounded(
                false,
                rounding::scaled_num(2 * r + 1, k - 1),
                rounding::scaled_den(k - 1),
            )
        }),
{
    let z = pow2(k);
    let big = n * (z * z);
    let whole = floor_root(big);
    lemma_floor_root(big);
    lemma_pow2_pos(k);
    lemma_pow2(0);
    reveal(vstd::arithmetic::power::pow);
    let low = r * z;
    let high = (r + 1) * z;
    assert(low * low <= big < high * high) by (nonlinear_arith)
        requires
            r * r <= n < (r + 1) * (r + 1),
            z > 0,
            low == r * z,
            high == (r + 1) * z,
            big == n * (z * z),
    ;
    assert(whole < high) by (nonlinear_arith)
        requires
            whole * whole <= big < high * high,
            high >= 0,
            whole >= 0,
    ;
    assert(low <= whole) by (nonlinear_arith)
        requires
            low * low <= big < (whole + 1) * (whole + 1),
            low >= 0,
            whole >= 0,
    ;
    if r * r == n {
        assert(low * low == big) by (nonlinear_arith)
            requires
                r * r == n,
                low == r * z,
                big == n * (z * z),
        ;
        assert(is_floor_root(low, big)) by (nonlinear_arith)
            requires
                low * low == big,
                low >= 0,
        ;
        assert(whole == low);
    } else {
        lemma_pow2_unfold(k + 1);
        lemma_scaled(2 * r + 1, k - 1, k, 1);
        lemma_pow2_unfold(1);
        let sn = rounding::scaled_num(2 * r + 1, k - 1);
        let sd = rounding::scaled_den(k - 1);
        rounding::lemma_round_ratio_ratio(f.p(), (2 * r + 1) * z, 2, sn, sd);
        assert(2 * pow2(0) == 2);
        if whole * whole == big {
            assert(whole != low) by (nonlinear_arith)
                requires
                    whole * whole == n * (z * z),
                    r * r != n,
                    low == r * z,
                    z > 0,
            ;
            let rem = (whole - low) as nat;
            assert(whole == r * z + rem && 0 < rem < z) by (nonlinear_arith)
                requires
                    low == r * z,
                    high == (r + 1) * z,
                    low < whole < high,
                    rem == whole - low,
            ;
            assert(1 * z == z * pow2(0)) by (nonlinear_arith)
                requires
                    pow2(0) == 1,
            ;
            rounding::lemma_round_sticky(f.p(), whole, 1, z, r, rem, k, 0);
        } else {
            let num = 2 * whole + 1;
            let u = 2 * z;
            let rem = (num - 2 * low) as nat;
            assert(num == r * u + rem && 0 < rem < u) by (nonlinear_arith)
                requires
                    low == r * z,
                    high == (r + 1) * z,
                    low <= whole < high,
                    num == 2 * whole + 1,
                    rem == num - 2 * low,
                    u == 2 * z,
            ;
            assert(2 * z == u * pow2(0)) by (nonlinear_arith)
                requires
                    pow2(0) == 1,
                    u == 2 * z,
            ;
            rounding::lemma_round_sticky(f.p(), num, 2, u, r, rem, k, 0);
        }
    }
}

impl Format {
    pub fn square_root(self, d: Datum) -> (r: Datum)
        requires
            self.valid(),
        ensures
            r == self.root(d),
    {
        let infinity: u64 = self.infinity_pattern();
        if d.magnitude > infinity || (d.negative && d.magnitude != 0) {
            return self.quiet_nan();
        }
        if d.magnitude == 0 || d.magnitude == infinity {
            return d;
        }
        let (m, e) = self.split(d);
        proof {
            lemma_significand_bounds(self);
            lemma_pow2_pos(e as nat);
            assert(m > 0) by (nonlinear_arith)
                requires
                    m * pow2(e as nat) > 0,
                    m >= 0,
            ;
        }
        let n: u32 = rounding::bit_length(m as u128);
        proof {
            lemma_pow2(0);
            reveal(vstd::arithmetic::power::pow);
            if n > self.precision {
                rounding::lemma_pow2_le(self.p(), (n - 1) as nat);
            }
        }
        let exponent: u32 = e + self.unit;
        let s0: u32 = 2 * self.precision + 3 - n;
        let s: u32 = if (exponent - s0) % 2 == 0 { s0 } else { s0 + 1 };
        let k: u32 = (exponent - s) / 2;
        let ghost big = m * pow2(s as nat);
        proof {
            let p = self.p();
            lemma_pow2_pos(s as nat);
            lemma_pow2_adds(n as nat, s as nat);
            lemma_pow2_adds((n - 1) as nat, s as nat);
            rounding::lemma_pow2_le((n + s) as nat, 110);
            rounding::lemma_pow2_le(2 * p + 2, ((n - 1) + s) as nat);
            assert(pow2((n - 1) as nat) * pow2(s as nat) <= big < pow2(n as nat) * pow2(s as nat))
                by (nonlinear_arith)
                requires
                    pow2((n - 1) as nat) <= m < pow2(n as nat),
                    pow2(s as nat) > 0,
                    big == m * pow2(s as nat),
            ;
            assert(((n - 1) as nat) + (s as nat) == ((n - 1) + s) as nat);
            lemma_pow2_adds(55, 55);
            lemma2_to64_rest();
            assert(pow2(110) <= 0x4000_0000_0000_0000_0000_0000_0000) by (nonlinear_arith)
                requires
                    pow2(110) == pow2(55) * pow2(55),
                    pow2(55) == 0x80_0000_0000_0000,
            ;
            rounding::lemma_pow2_le(110, 112);
        }
        let wide: u128 = m as u128 * rounding::power_of_two(s);
        let r: u128 = integer_root(wide);
        proof {
            let p = self.p();
            let top = pow2(p);
            lemma_pow2_adds(p, p);
            lemma_pow2_adds(2 * p, 2);
            assert(pow2(2) == 4) by {
                lemma2_to64();
            }
            assert(r >= top) by (nonlinear_arith)
                requires
                    wide < (r + 1) * (r + 1),
                    wide >= (top * top) * 4,
                    r >= 0,
                    top >= 1,
            ;
            lemma_root(self, wide as nat, r as nat, k as nat);
            // wide * 4^k is the number under the root.
            assert(s + 2 * k == exponent);
            lemma_pow2_adds(k as nat, k as nat);
            lemma_pow2_adds(s as nat, (k + k) as nat);
            lemma_pow2_adds(e as nat, self.unit as nat);
            assert((s as nat) + ((k + k) as nat) == exponent as nat);
            let n2 = self.size(d) * pow2(self.unit as nat);
            assert(n2 == wide * (pow2(k as nat) * pow2(k as nat))) by (nonlinear_arith)
                requires
                    n2 == m * pow2(e as nat) * pow2(self.unit as nat),
                    wide == m * pow2(s as nat),
                    pow2(e as nat) * pow2(self.unit as nat) == pow2(s as nat) * (pow2(k as nat)
                        * pow2(k as nat)),
            ;
            rounding::lemma_pow2_le(57, 120);
        }
        if r * r == wide {
            self.settle(false, r, k as i32)
        } else {
            self.settle(false, 2 * r + 1, k as i32 - 1)
        }
    }
}

/// Rounding keeps the order.
pub proof fn lemma_rounded_monotone(f: Format, negative: bool, n1: nat, d1: nat, n2: nat, d2: nat)
    requires
        f.valid(),
        d1 > 0,
        d2 > 0,
        n1 * d2 <= n2 * d1,
    ensures
        f.rounded(negative, n1, d1).magnitude <= f.rounded(negative, n2, d2).magnitude,
        !f.is_nan(f.rounded(negative, n1, d1)),
        !f.is_nan(f.rounded(negative, n2, d2)),
{
    lemma_infinity_bounds(f);
    rounding::lemma_round_ratio_monotone(f.p(), n1, d1, n2, d2);
}

/// An integer of 64 bits is finite in either format, and keeps its order.
pub proof fn lemma_of_integer(f: Format, m: nat, n: nat)
    requires
        f.valid(),
        m <= n <= u64::MAX,
        f.unit + 66 < f.top + f.precision,
    ensures
        f.is_finite(f.of_integer(m)),
        f.is_finite(f.of_integer(n)),
        !f.of_integer(m).negative,
        f.of_integer(m).magnitude <= f.of_integer(n).magnitude,
        f.of_integer(m).magnitude == 0 <==> m == 0,
{
    let p = f.p();
    let u = pow2(f.unit as nat);
    let h = pow2((f.precision - 1) as nat);
    lemma_pow2_pos(f.unit as nat);
    lemma_significand_bounds(f);
    lemma_infinity_bounds(f);
    lemma2_to64();
    assert(m * u * 1 <= n * u * 1) by (nonlinear_arith)
        requires
            m <= n,
    ;
    lemma_rounded_monotone(f, false, m * u, 1, n * u, 1);
    let k = (f.unit + 64 - f.precision) as nat;
    lemma_pow2_adds(64, f.unit as nat);
    assert(n * u < 1 * pow2(p + k)) by (nonlinear_arith)
        requires
            n < 0x1_0000_0000_0000_0000,
            pow2(p + k) == 0x1_0000_0000_0000_0000 * u,
            u > 0,
    ;
    rounding::lemma_round_ratio_limit(p, n * u, 1, k);
    assert((k + 2) * h < f.top * h) by (nonlinear_arith)
        requires
            k + 2 < f.top,
            h > 0,
    ;
    // One is already above the smallest normal number.
    if m == 0 {
        assert(m * u == 0) by (nonlinear_arith)
            requires
                m == 0,
        ;
        lemma_round_zero(f, 1);
    } else {
        assert(u * 1 <= m * u * 1) by (nonlinear_arith)
            requires
                m >= 1,
        ;
        rounding::lemma_round_ratio_monotone(p, u, 1, m * u, 1);
        rounding::lemma_round_ratio_bounds(p, u, 1);
        rounding::lemma_binade(p, u, 1);
        let e = rounding::binade(p, u, 1);
        if e == 0 {
            lemma_pow2(0);
            reveal(vstd::arithmetic::power::pow);
            rounding::lemma_pow2_le(p, f.unit as nat);
            assert(false) by (nonlinear_arith)
                requires
                    u < 1 * pow2(0) * pow2(p),
                    pow2(0) == 1,
                    u >= pow2(p),
            ;
        }
        assert(e * h + h > 0) by (nonlinear_arith)
            requires
                e >= 0,
                h > 0,
        ;
    }
}

proof fn lemma_round_zero(f: Format, den: nat)
    requires
        f.valid(),
        den > 0,
    ensures
        rounding::round_ratio(f.p(), 0, den) == 0,
{
    lemma_pow2_pos(f.p());
    lemma_pow2(0);
    reveal(vstd::arithmetic::power::pow);
    assert(den * pow2(f.p()) > 0 && den * pow2(0) > 0) by (nonlinear_arith)
        requires
            den > 0,
            pow2(f.p()) > 0,
            pow2(0) == 1,
    ;
    assert(0 * pow2((f.p() - 1) as nat) == 0);
    lemma_div_of0((den * pow2(0)) as int);
}

/// Dividing by a positive number keeps the order.
pub proof fn lemma_quotient_monotone(f: Format, a: Datum, b: Datum, d: Datum)
    requires
        f.valid(),
        !a.negative,
        !b.negative,
        !d.negative,
        f.is_finite(a),
        f.is_finite(b),
        f.is_finite(d),
        d.magnitude > 0,
        a.magnitude <= b.magnitude,
    ensures
        !f.is_nan(f.quotient(a, d)),
        !f.is_nan(f.quotient(b, d)),
        !f.quotient(a, d).negative,
        !f.quotient(b, d).negative,
        f.quotient(a, d).magnitude <= f.quotient(b, d).magnitude,
{
    lemma_level_orders_values(f, a, b);
    lemma_level_orders_values(f, d, d);
    let u = pow2(f.unit as nat);
    let sa = f.size(a);
    let sb = f.size(b);
    let sd = f.size(d);
    assert((sa * u) * sd <= (sb * u) * sd) by (nonlinear_arith)
        requires
            sa <= sb,
            u >= 0,
            sd >= 0,
    ;
    lemma_rounded_monotone(f, false, sa * u, sd, sb * u, sd);
}

/// Multiplying by a positive number keeps the order.
pub proof fn lemma_product_monotone(f: Format, a: Datum, b: Datum, d: Datum)
    requires
        f.valid(),
        !a.negative,
        !b.negative,
        !d.negative,
        !f.is_nan(a),
        !f.is_nan(b),
        f.is_finite(d),
        d.magnitude > 0,
        a.magnitude <= b.magnitude,
    ensures
        !f.is_nan(f.product(a, d)),
        !f.is_nan(f.product(b, d)),
        !f.product(a, d).negative,
        !f.product(b, d).negative,
        f.product(a, d).magnitude <= f.product(b, d).magnitude,
{
    lemma_infinity_bounds(f);
    let u = pow2(f.unit as nat);
    lemma_pow2_pos(f.unit as nat);
    if f.is_finite(a) {
        let sa = f.size(a);
        let sd = f.size(d);
        lemma_rounded_monotone(f, false, sa * sd, u, sa * sd, u);
        if f.is_finite(b) {
            lemma_level_orders_values(f, a, b);
            let sb = f.size(b);
            assert((sa * sd) * u <= (sb * sd) * u) by (nonlinear_arith)
                requires
                    sa <= sb,
                    u >= 0,
                    sd >= 0,
            ;
            lemma_rounded_monotone(f, false, sa * sd, u, sb * sd, u);
        }
    }
}

/// Cutting off the fraction keeps the order.
pub proof fn lemma_integer_part_monotone(f: Format, a: Datum, b: Datum, max: nat)
    requires
        f.valid(),
        !a.negative,
        !b.negative,
        !f.is_nan(a),
        !f.is_nan(b),
        a.magnitude <= b.magnitude,
    ensures
        f.integer_part(a, max) <= f.integer_part(b, max),
{
    if f.is_finite(b) {
        lemma_level_orders_values(f, a, b);
        lemma_pow2_pos(f.unit as nat);
        lemma_div_is_ordered(f.size(a) as int, f.size(b) as int, pow2(f.unit as nat) as int);
    }
}

/// Finite numbers times zero are zero.
pub proof fn lemma_product_with_zero(f: Format, a: Datum, z: Datum)
    requires
        f.valid(),
        f.is_finite(a),
        z.magnitude == 0,
    ensures
        f.product(a, z) == f.zero(a.negative != z.negative),
{
    lemma_infinity_bounds(f);
    lemma_pow2_pos(f.unit as nat);
    lemma_level_orders_values(f, z, z);
    assert(f.size(a) * f.size(z) == 0) by (nonlinear_arith)
        requires
            f.size(z) == 0,
    ;
    lemma_round_zero(f, pow2(f.unit as nat));
}

pub proof fn lemma_zero_has_no_integer_part(f: Format, max: nat)
    requires
        f.valid(),
    ensures
        f.integer_part(f.zero(false), max) == 0,
{
    lemma_infinity_bounds(f);
    let z = f.zero(false);
    lemma_level_orders_values(f, z, z);
    lemma_pow2_pos(f.unit as nat);
    lemma_div_of0(pow2(f.unit as nat) as int);
}

/// What is divided by itself gives one.
pub proof fn lemma_quotient_by_itself(f: Format, d: Datum)
    requires
        f.valid(),
        f.is_finite(d),
        d.magnitude > 0,
    ensures
        f.quotient(d, d) == f.of_integer(1),
{
    let s = f.size(d);
    let u = pow2(f.unit as nat);
    lemma_level_orders_values(f, d, d);
    assert((s * u) * 1 == (1 * u) * s) by (nonlinear_arith);
    lemma_rounded_ratio(f, false, s * u, s, 1 * u, 1);
}

} // verus!
