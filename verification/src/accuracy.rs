//! How near what is computed lies to what is meant: the results of the arithmetic, and the
//! times, rates, levels and samples that are computed with it.

use vstd::arithmetic::div_mod::*;
use vstd::arithmetic::mul::*;
use vstd::arithmetic::power2::*;
use vstd::prelude::*;

use crate::arith;
use crate::arith::{Datum, Format};
use crate::numbers;
use crate::numbers::{Binary32, Binary64};
use crate::rounding;
use crate::signal;

verus! {

/// `x` and `y` are the same up to `k` parts in `c`.
pub open spec fn close(c: nat, x: nat, y: nat, k: nat) -> bool {
    x * (c - k) <= y * c && y * (c - k) <= x * c
}

/// Closeness adds up.
pub proof fn lemma_close_chain(c: nat, x: nat, y: nat, z: nat, j: nat, k: nat)
    requires
        close(c, x, y, j),
        close(c, y, z, k),
        j + k <= c,
        c > 0,
    ensures
        close(c, x, z, j + k),
{
    lemma_close_chain_half(c, x, y, z, j, k);
    lemma_close_chain_half(c, z, y, x, k, j);
}

proof fn lemma_close_chain_half(c: nat, x: nat, y: nat, z: nat, j: nat, k: nat)
    requires
        x * (c - j) <= y * c,
        y * (c - k) <= z * c,
        j + k <= c,
        c > 0,
    ensures
        x * (c - (j + k)) <= z * c,
{
    assert(x * (c - (j + k)) <= z * c) by (nonlinear_arith)
        requires
            x * (c - j) <= y * c,
            y * (c - k) <= z * c,
            j + k <= c,
            c > 0,
    {
        assert((x * (c - j)) * (c - k) <= (y * c) * (c - k));
        assert((y * c) * (c - k) == (y * (c - k)) * c);
        assert((y * (c - k)) * c <= (z * c) * c);
        assert((c - j) * (c - k) >= c * (c - (j + k)));
        assert(x * ((c - j) * (c - k)) >= x * (c * (c - (j + k))));
        assert((x * (c - j)) * (c - k) == x * ((c - j) * (c - k)));
        assert(x * (c * (c - (j + k))) == (x * (c - (j + k))) * c);
        let a = x * (c - (j + k));
        let b = z * c;
        if a > b {
            assert(a * c > b * c);
        }
    }
}

/// It stays with a factor,
pub proof fn lemma_close_scaled(c: nat, x: nat, y: nat, k: nat, m: nat)
    requires
        close(c, x, y, k),
        k <= c,
    ensures
        close(c, x * m, y * m, k),
{
    assert((x * m) * (c - k) <= (y * m) * c && (y * m) * (c - k) <= (x * m) * c)
        by (nonlinear_arith)
        requires
            x * (c - k) <= y * c,
            y * (c - k) <= x * c,
    {
        assert((x * (c - k)) * m <= (y * c) * m);
        assert((y * (c - k)) * m <= (x * c) * m);
        assert((x * (c - k)) * m == (x * m) * (c - k));
        assert((y * c) * m == (y * m) * c);
        assert((y * (c - k)) * m == (y * m) * (c - k));
        assert((x * c) * m == (x * m) * c);
    }
}

/// without one,
pub proof fn lemma_close_unscaled(c: nat, x: nat, y: nat, k: nat, m: nat)
    requires
        close(c, x * m, y * m, k),
        k <= c,
        m > 0,
    ensures
        close(c, x, y, k),
{
    assert(x * (c - k) <= y * c && y * (c - k) <= x * c) by (nonlinear_arith)
        requires
            (x * m) * (c - k) <= (y * m) * c,
            (y * m) * (c - k) <= (x * m) * c,
            m > 0,
    {
        assert((x * m) * (c - k) == (x * (c - k)) * m);
        assert((y * m) * c == (y * c) * m);
        assert((y * m) * (c - k) == (y * (c - k)) * m);
        assert((x * m) * c == (x * c) * m);
        let a = x * (c - k);
        let b = y * c;
        let d = y * (c - k);
        let e = x * c;
        if a > b {
            assert(a * m > b * m);
        }
        if d > e {
            assert(d * m > e * m);
        }
    }
}

/// and with a summand.
pub proof fn lemma_close_shifted(c: nat, x: nat, y: nat, k: nat, m: nat)
    requires
        close(c, x, y, k),
        k <= c,
    ensures
        close(c, x + m, y + m, k),
{
    assert((x + m) * (c - k) <= (y + m) * c && (y + m) * (c - k) <= (x + m) * c)
        by (nonlinear_arith)
        requires
            x * (c - k) <= y * c,
            y * (c - k) <= x * c,
            k <= c,
    {
        assert(m * (c - k) <= m * c);
        assert((x + m) * (c - k) == x * (c - k) + m * (c - k));
        assert((y + m) * (c - k) == y * (c - k) + m * (c - k));
        assert((y + m) * c == y * c + m * c);
        assert((x + m) * c == x * c + m * c);
    }
}

/// What is off by one part is close.
pub proof fn lemma_close_near(c: nat, x: nat, y: nat)
    requires
        rounding::distance(x as int, y as int) * c <= y,
        c > 0,
    ensures
        close(c, x, y, 1),
{
    let d = rounding::distance(x as int, y as int);
    assert(x * (c - 1) <= y * c && y * (c - 1) <= x * c) by (nonlinear_arith)
        requires
            d * c <= y,
            d == x - y || d == y - x,
            d >= 0,
            c > 0,
    {
        assert(x * c <= y * c + y);
        assert(x * c >= y * c - y);
        assert(x * (c - 1) == x * c - x);
        assert(y * (c - 1) == y * c - y);
        if d == x - y && d > 0 {
            assert(x >= y);
        } else {
            assert(x <= y);
            assert(x * (c - 1) <= y * (c - 1));
        }
    }
}

/// The widest that a format of a ratio is looked at: what lies below is finite.
pub open spec fn limit(f: Format) -> nat {
    pow2((f.precision + f.top - 3) as nat)
}

/// A ratio that is not too large becomes a finite number, off by at most one part in
/// `2^precision` or by half a quantum; off by no more than the first where it is not tiny,
/// or a whole number of quanta.
pub proof fn lemma_rounded_near(f: Format, negative: bool, num: nat, den: nat)
    requires
        f.valid(),
        f.top >= 3,
        den > 0,
        num < den * limit(f),
    ensures
        ({
            let r = f.rounded(negative, num, den);
            let d = rounding::distance((f.size(r) * den) as int, num as int);
            let c = pow2(f.p());
            let h = pow2((f.precision - 1) as nat);
            &&& f.is_finite(r)
            &&& r.negative == negative
            &&& d * c <= num + den * h
            &&& num >= den * h ==> d * c <= num && close(c, f.size(r) * den, num, 1)
            &&& den == 1 ==> d * c <= num && close(c, f.size(r), num, 1)
        }),
{
    let k = (f.top - 3) as nat;
    let h = pow2((f.precision - 1) as nat);
    rounding::lemma_round_ratio_limit(f.p(), num, den, k);
    rounding::lemma_round_near(f.p(), num, den);
    arith::lemma_infinity_bounds(f);
    lemma_pow2_pos(f.p());
    lemma_pow2_pos((f.precision - 1) as nat);
    assert((k + 2) * h < f.top * h) by (nonlinear_arith)
        requires
            k + 2 < f.top,
            h > 0,
    ;
    let r = f.rounded(negative, num, den);
    if num >= den * h {
        lemma_close_near(pow2(f.p()), f.size(r) * den, num);
    }
    if den == 1 {
        assert(f.size(r) * 1 == f.size(r));
        lemma_close_near(pow2(f.p()), f.size(r), num);
    }
}

// The arithmetic: the nearest number to the exact result.

/// No number of a format is nearer to a ratio than the one that it becomes, of either sign.
proof fn lemma_nearest(f: Format, negative: bool, num: nat, den: nat, y: Datum)
    requires
        f.valid(),
        den > 0,
        f.is_finite(f.rounded(negative, num, den)),
    ensures
        ({
            let x = if negative {
                -(num as int)
            } else {
                num as int
            };
            rounding::distance(f.value(f.rounded(negative, num, den)) * den, x)
                <= rounding::distance(f.value(y) * den, x)
        }),
{
    let r = f.rounded(negative, num, den);
    arith::lemma_infinity_bounds(f);
    rounding::lemma_round_nearest(f.p(), num, den, y.magnitude as nat);
    rounding::lemma_round_nearest(f.p(), num, den, 0);
    lemma_pow2_pos((f.precision - 1) as nat);
    lemma_basic_div(0, pow2((f.precision - 1) as nat) as int);
    lemma_small_mod(0, pow2((f.precision - 1) as nat));
    assert(rounding::quanta(f.p(), 0) == 0);
    assert(0 * den == 0);
    let a = f.size(r);
    let b = f.size(y);
    assert((-a) * den == -(a * den)) by (nonlinear_arith);
    assert((-b) * den == -(b * den)) by (nonlinear_arith);
    assert(a * den >= 0 && b * den >= 0) by (nonlinear_arith)
        requires
            a >= 0,
            b >= 0,
            den > 0,
    ;
}

/// What is too large for a format is larger than all its numbers.
proof fn lemma_too_large(f: Format, negative: bool, num: nat, den: nat, y: Datum)
    requires
        f.valid(),
        den > 0,
        !f.is_finite(f.rounded(negative, num, den)),
        f.is_finite(y),
    ensures
        f.size(y) * den < num,
{
    arith::lemma_infinity_bounds(f);
    let s = f.size(y);
    if s * den >= num {
        assert(num * 1 <= s * den);
        rounding::lemma_round_ratio_monotone(f.p(), num, den, s, 1);
        rounding::lemma_round_of_quanta(f.p(), y.magnitude as nat);
    }
}

/// A sum is the number nearest to the exact sum, or an infinity where that is larger than
/// all numbers.
pub proof fn lemma_sum_is_nearest(f: Format, a: Datum, b: Datum, y: Datum)
    requires
        f.valid(),
        f.is_finite(a),
        f.is_finite(b),
        f.is_finite(y),
    ensures
        ({
            let r = f.sum(a, b);
            let exact = f.value(a) + f.value(b);
            &&& !f.is_nan(r)
            &&& f.is_finite(r) ==> rounding::distance(f.value(r), exact) <= rounding::distance(
                f.value(y),
                exact,
            )
            &&& !f.is_finite(r) ==> f.size(y) < rounding::distance(exact, 0) && r.negative == (exact
                < 0)
        }),
{
    let s = f.value(a) + f.value(b);
    let num = rounding::distance(s, 0) as nat;
    arith::lemma_infinity_bounds(f);
    arith::lemma_level_orders_values(f, y, y);
    if s == 0 {
        arith::lemma_level_orders_values(f, f.zero(false), f.zero(true));
    } else {
        let r = f.rounded(s < 0, num, 1);
        if f.is_finite(r) {
            lemma_nearest(f, s < 0, num, 1, y);
            assert(f.value(r) * 1 == f.value(r));
            assert(f.value(y) * 1 == f.value(y));
        } else {
            lemma_too_large(f, s < 0, num, 1, y);
            assert(f.size(y) * 1 == f.size(y));
        }
    }
}

/// A product is the number nearest to the exact product, or an infinity where that is
/// larger than all numbers.
pub proof fn lemma_product_is_nearest(f: Format, a: Datum, b: Datum, y: Datum)
    requires
        f.valid(),
        f.is_finite(a),
        f.is_finite(b),
        f.is_finite(y),
    ensures
        ({
            let r = f.product(a, b);
            let u = pow2(f.unit as nat);
            let exact = f.value(a) * f.value(b);
            &&& !f.is_nan(r)
            &&& r.negative == (a.negative != b.negative)
            &&& f.is_finite(r) ==> rounding::distance(f.value(r) * u, exact)
                <= rounding::distance(f.value(y) * u, exact)
            &&& !f.is_finite(r) ==> f.size(y) * u < rounding::distance(exact, 0)
        }),
{
    let u = pow2(f.unit as nat);
    let sa = f.size(a);
    let sb = f.size(b);
    let num = sa * sb;
    let negative = a.negative != b.negative;
    arith::lemma_infinity_bounds(f);
    lemma_pow2_pos(f.unit as nat);
    assert(f.value(a) * f.value(b) == if negative {
        -(num as int)
    } else {
        num as int
    }) by (nonlinear_arith)
        requires
            f.value(a) == (if a.negative {
                -(sa as int)
            } else {
                sa as int
            }),
            f.value(b) == (if b.negative {
                -(sb as int)
            } else {
                sb as int
            }),
            num == sa * sb,
            negative == (a.negative != b.negative),
    ;
    let r = f.rounded(negative, num, u);
    if f.is_finite(r) {
        lemma_nearest(f, negative, num, u, y);
    } else {
        lemma_too_large(f, negative, num, u, y);
    }
}

/// A quotient is the number nearest to the exact quotient, or an infinity where that is
/// larger than all numbers.
pub proof fn lemma_quotient_is_nearest(f: Format, a: Datum, b: Datum, y: Datum)
    requires
        f.valid(),
        f.is_finite(a),
        f.is_finite(b),
        f.is_finite(y),
        b.magnitude != 0,
    ensures
        ({
            let r = f.quotient(a, b);
            let u = pow2(f.unit as nat);
            let dividend = if a.negative != b.negative {
                -(f.size(a) * u)
            } else {
                (f.size(a) * u) as int
            };
            &&& !f.is_nan(r)
            &&& r.negative == (a.negative != b.negative)
            &&& f.is_finite(r) ==> rounding::distance(f.value(r) * f.size(b), dividend)
                <= rounding::distance(f.value(y) * f.size(b), dividend)
            &&& !f.is_finite(r) ==> f.size(y) * f.size(b) < f.size(a) * u
        }),
{
    let u = pow2(f.unit as nat);
    let negative = a.negative != b.negative;
    arith::lemma_infinity_bounds(f);
    arith::lemma_level_orders_values(f, b, b);
    let r = f.rounded(negative, f.size(a) * u, f.size(b));
    if f.is_finite(r) {
        lemma_nearest(f, negative, f.size(a) * u, f.size(b), y);
    } else {
        lemma_too_large(f, negative, f.size(a) * u, f.size(b), y);
    }
}

/// An integer becomes the number nearest to it.
pub proof fn lemma_integer_is_nearest(f: Format, n: nat, y: Datum)
    requires
        f.valid(),
        f.is_finite(y),
        f.is_finite(f.of_integer(n)),
    ensures
        !f.of_integer(n).negative,
        rounding::distance(f.value(f.of_integer(n)), (n * pow2(f.unit as nat)) as int)
            <= rounding::distance(f.value(y), (n * pow2(f.unit as nat)) as int),
{
    lemma_nearest(f, false, n * pow2(f.unit as nat), 1, y);
    assert(f.value(f.of_integer(n)) * 1 == f.value(f.of_integer(n)));
    assert(f.value(y) * 1 == f.value(y));
}

/// A number becomes the nearest one of another format.
pub proof fn lemma_converted_is_nearest(f: Format, to: Format, d: Datum, y: Datum)
    requires
        f.valid(),
        to.valid(),
        f.is_finite(d),
        to.is_finite(y),
    ensures
        ({
            let r = f.converted(to, d);
            let exact = f.value(d) * pow2(to.unit as nat);
            let u = pow2(f.unit as nat);
            &&& !to.is_nan(r)
            &&& r.negative == d.negative
            &&& to.is_finite(r) ==> rounding::distance(to.value(r) * u, exact)
                <= rounding::distance(to.value(y) * u, exact)
            &&& !to.is_finite(r) ==> to.size(y) * u < rounding::distance(exact, 0)
        }),
{
    let u = pow2(f.unit as nat);
    let t = pow2(to.unit as nat);
    let s = f.size(d);
    arith::lemma_infinity_bounds(to);
    lemma_pow2_pos(f.unit as nat);
    assert((-s) * t == -(s * t)) by (nonlinear_arith);
    assert(s * t >= 0) by (nonlinear_arith)
        requires
            s >= 0,
            t >= 0,
    ;
    let r = to.rounded(d.negative, s * t, u);
    if to.is_finite(r) {
        lemma_nearest(to, d.negative, s * t, u, y);
    } else {
        lemma_too_large(to, d.negative, s * t, u, y);
    }
}

/// The integer part of a number that is not negative is the largest integer that is not
/// above it, as far as integers are told; that of a negative one, and of what is not a
/// number, is zero.
pub proof fn lemma_integer_part(f: Format, d: Datum, max: nat)
    requires
        f.valid(),
    ensures
        ({
            let n = f.integer_part(d, max);
            let u = pow2(f.unit as nat);
            &&& n <= max
            &&& f.is_nan(d) || d.negative ==> n == 0
            &&& f.is_infinite(d) && !d.negative ==> n == max
            &&& f.is_finite(d) && !d.negative ==> n * u <= f.size(d) && (n < max ==> f.size(d)
                < (n + 1) * u)
        }),
{
    let u = pow2(f.unit as nat);
    let s = f.size(d);
    lemma_pow2_pos(f.unit as nat);
    lemma_fundamental_div_mod(s as int, u as int);
    lemma_mod_pos_bound(s as int, u as int);
    let w = s / u;
    assert(w * u <= s < (w + 1) * u) by (nonlinear_arith)
        requires
            s == u * w + s % u,
            0 <= s % u < u,
    ;
    let n = f.integer_part(d, max);
    if f.is_finite(d) && !d.negative {
        assert(n * u <= w * u) by (nonlinear_arith)
            requires
                n <= w,
                u > 0,
        ;
    }
}

/// The operations on patterns are those on the data that they stand for.
pub proof fn lemma_single_operations(a: Binary32, b: Binary32, n: nat, max: nat)
    ensures
        ({
            let f = Format::single();
            &&& a.plus(b).datum() == f.sum(a.datum(), b.datum())
            &&& a.minus(b) == a.plus(b.negated())
            &&& b.negated().datum().magnitude == b.datum().magnitude
            &&& b.negated().datum().negative == !b.datum().negative
            &&& a.times(b).datum() == f.product(a.datum(), b.datum())
            &&& a.over(b).datum() == f.quotient(a.datum(), b.datum())
            &&& Binary32::of_integer(n).datum() == f.of_integer(n)
            &&& a.integer_part(max) == f.integer_part(a.datum(), max)
            &&& a.absolute().datum().magnitude == a.datum().magnitude
            &&& !a.absolute().datum().negative
            &&& a.widened().datum() == f.converted(Format::double(), a.datum())
        }),
{
    let f = Format::single();
    let g = Format::double();
    numbers::lemma_single_patterns();
    numbers::lemma_double_patterns();
    numbers::lemma_results_fit(a.datum(), b.datum(), n);
    numbers::lemma_packed(f.sum(a.datum(), b.datum()));
    numbers::lemma_packed(f.product(a.datum(), b.datum()));
    numbers::lemma_packed(f.quotient(a.datum(), b.datum()));
    numbers::lemma_packed(f.of_integer(n));
    arith::lemma_infinity_bounds(g);
}

/// The same of the wider format.
pub proof fn lemma_double_operations(a: Binary64, b: Binary64, n: nat)
    ensures
        ({
            let f = Format::double();
            &&& a.plus(b).datum() == f.sum(a.datum(), b.datum())
            &&& a.times(b).datum() == f.product(a.datum(), b.datum())
            &&& a.over(b).datum() == f.quotient(a.datum(), b.datum())
            &&& a.root().datum() == f.root(a.datum())
            &&& Binary64::of_integer(n).datum() == f.of_integer(n)
            &&& a.narrowed().datum() == f.converted(Format::single(), a.datum())
        }),
{
    numbers::lemma_single_patterns();
    numbers::lemma_double_patterns();
    arith::lemma_infinity_bounds(Format::double());
    numbers::lemma_packed(Format::double().converted(Format::single(), a.datum()));
}

/// The larger and the smaller of two numbers are one of them, and bound both.
pub proof fn lemma_larger_and_smaller(a: Binary32, b: Binary32)
    requires
        !a.nan(),
        !b.nan(),
    ensures
        a.larger(b) == a || a.larger(b) == b,
        a.larger(b).level() >= a.level(),
        a.larger(b).level() >= b.level(),
        a.smaller(b) == a || a.smaller(b) == b,
        a.smaller(b).level() <= a.level(),
        a.smaller(b).level() <= b.level(),
{
}

/// What is not a number spreads, infinities of unlike sign cancel to it, and an infinity
/// outweighs all numbers.
pub proof fn lemma_special_values(f: Format, a: Datum, b: Datum)
    requires
        f.valid(),
    ensures
        f.is_nan(a) || f.is_nan(b) ==> {
            &&& f.is_nan(f.sum(a, b))
            &&& f.is_nan(f.product(a, b))
            &&& f.is_nan(f.quotient(a, b))
        },
        f.is_infinite(a) && f.is_finite(b) ==> {
            &&& f.sum(a, b) == a
            &&& f.sum(b, a) == a
            &&& f.is_infinite(f.quotient(a, b))
            &&& f.quotient(b, a).magnitude == 0
            &&& b.magnitude != 0 ==> f.is_infinite(f.product(a, b))
            &&& b.magnitude == 0 ==> f.is_nan(f.product(a, b))
        },
        f.is_infinite(a) && f.is_infinite(b) ==> {
            &&& a.negative == b.negative ==> f.sum(a, b) == a
            &&& a.negative != b.negative ==> f.is_nan(f.sum(a, b))
            &&& f.is_infinite(f.product(a, b))
            &&& f.is_nan(f.quotient(a, b))
        },
        f.is_finite(a) && a.magnitude != 0 && b.magnitude == 0 ==> f.is_infinite(
            f.quotient(a, b),
        ),
        a.magnitude == 0 && b.magnitude == 0 ==> f.is_nan(f.quotient(a, b)),
{
    arith::lemma_infinity_bounds(f);
    lemma_pow2_pos((f.precision - 2) as nat);
}

// Times and rates, in single precision.

/// The powers of two that sizes are measured with.
pub proof fn lemma_powers()
    ensures
        pow2(23) == 0x80_0000,
        pow2(24) == 0x100_0000,
        pow2(149) > 0,
        limit(Format::single()) == pow2(276),
        Format::single().valid(),
{
    lemma2_to64();
    lemma_pow2_pos(149);
    numbers::lemma_single_patterns();
}

/// An integer in single precision, and its bounds.
proof fn lemma_integer_close(n: nat) -> (a: nat)
    requires
        1 <= n <= u64::MAX,
    ensures
        ({
            let f = Format::single();
            let d = Binary32::of_integer(n).datum();
            &&& !d.negative
            &&& f.is_finite(d)
            &&& d.magnitude > 0
            &&& a == f.size(d)
        }),
        close(0x100_0000, a, n * pow2(149), 1),
        2 * a >= n * pow2(149),
        a <= 2 * (n * pow2(149)),
{
    let f = Format::single();
    let u = pow2(149);
    let d = Binary32::of_integer(n).datum();
    lemma_powers();
    numbers::lemma_integers_ordered(n, n);
    lemma_single_operations(Binary32 { bits: 0 }, Binary32 { bits: 0 }, n, 0);
    lemma2_to64();
    lemma_pow2_adds(64, 149);
    rounding::lemma_pow2_le(213, 276);
    assert(n * u < 1 * pow2(276)) by (nonlinear_arith)
        requires
            n < pow2(64),
            pow2(64) * u <= pow2(276),
            u > 0,
    ;
    lemma_rounded_near(f, false, n * u, 1);
    let a = f.size(d);
    let x = n * u;
    assert(2 * a >= x && a <= 2 * x) by (nonlinear_arith)
        requires
            a * (0x100_0000 - 1) <= x * 0x100_0000,
            x * (0x100_0000 - 1) <= a * 0x100_0000,
    ;
    a
}

proof fn lemma_integer_bounds(n: nat, a: nat)
    requires
        1 <= n <= u64::MAX,
        2 * a >= n * pow2(149),
        a <= 2 * (n * pow2(149)),
    ensures
        2 * a >= pow2(149),
        a <= pow2(214),
{
    let u = pow2(149);
    lemma2_to64();
    lemma_pow2_pos(149);
    lemma_pow2_adds(64, 149);
    lemma_pow2_adds(1, 213);
    assert(n * u >= u && n * u <= pow2(64) * u) by (nonlinear_arith)
        requires
            1 <= n <= pow2(64),
            u > 0,
    ;
}

/// A quotient in single precision that is neither tiny nor huge.
proof fn lemma_over_close(x: Binary32, y: Binary32) -> (q: nat)
    requires
        ({
            let f = Format::single();
            let (a, b) = (x.datum(), y.datum());
            &&& !a.negative
            &&& !b.negative
            &&& f.is_finite(a)
            &&& f.is_finite(b)
            &&& b.magnitude > 0
            &&& f.size(b) * pow2(23) <= f.size(a) * pow2(149) < f.size(b) * pow2(276)
        }),
    ensures
        ({
            let f = Format::single();
            let d = x.over(y).datum();
            let b = f.size(y.datum());
            &&& !d.negative
            &&& f.is_finite(d)
            &&& q == f.size(d)
            &&& close(0x100_0000, q * b, f.size(x.datum()) * pow2(149), 1)
        }),
{
    let f = Format::single();
    lemma_powers();
    lemma_single_operations(x, y, 0, 0);
    arith::lemma_level_orders_values(f, y.datum(), y.datum());
    lemma_rounded_near(f, false, f.size(x.datum()) * pow2(149), f.size(y.datum()));
    f.size(x.over(y).datum())
}

/// A product in single precision that is neither tiny nor huge.
proof fn lemma_times_close(x: Binary32, y: Binary32) -> (q: nat)
    requires
        ({
            let f = Format::single();
            let (a, b) = (x.datum(), y.datum());
            &&& !a.negative
            &&& !b.negative
            &&& f.is_finite(a)
            &&& f.is_finite(b)
            &&& pow2(149) * pow2(23) <= f.size(a) * f.size(b) < pow2(149) * pow2(276)
        }),
    ensures
        ({
            let f = Format::single();
            let d = x.times(y).datum();
            &&& !d.negative
            &&& f.is_finite(d)
            &&& q == f.size(d)
            &&& close(0x100_0000, q * pow2(149), f.size(x.datum()) * f.size(y.datum()), 1)
        }),
{
    let f = Format::single();
    lemma_powers();
    lemma_single_operations(x, y, 0, 0);
    lemma_rounded_near(f, false, f.size(x.datum()) * f.size(y.datum()), pow2(149));
    f.size(x.times(y).datum())
}

/// The quotient of two integers in single precision, and its bounds.
pub proof fn lemma_ratio_close(from: nat, to: nat) -> (r: nat)
    requires
        1 <= from <= u64::MAX,
        1 <= to <= u64::MAX,
    ensures
        ({
            let f = Format::single();
            let d = Binary32::ratio(from, to).datum();
            &&& !d.negative
            &&& f.is_finite(d)
            &&& r == f.size(d)
        }),
        close(0x100_0000, r * to, from * pow2(149), 3),
        pow2(82) <= r <= pow2(216),
{
    let c = 0x100_0000nat;
    let u = pow2(149);
    let x = Binary32::of_integer(from);
    let y = Binary32::of_integer(to);
    let a = lemma_integer_close(from);
    let b = lemma_integer_close(to);
    lemma_powers();
    lemma2_to64();
    let w = pow2(64);
    lemma_pow2_adds(23, 66);
    rounding::lemma_pow2_le(89, 149);
    lemma_pow2_adds(2, 64);
    lemma_pow2_adds(66, 149);
    lemma_pow2_adds(1, 215);
    rounding::lemma_pow2_le(216, 276);
    lemma_pow2_pos(215);
    assert(from * u >= u && from * u <= w * u && to * u >= u && to * u <= w * u)
        by (nonlinear_arith)
        requires
            1 <= from <= w,
            1 <= to <= w,
            u > 0,
    ;
    assert(b * pow2(23) <= a * u < b * pow2(276)) by (nonlinear_arith)
        requires
            2 * a >= u,
            a <= 2 * (w * u),
            2 * b >= u,
            b <= 2 * (w * u),
            pow2(23) * (4 * w) <= u,
            (4 * w) * u < pow2(276),
            u > 0,
            w > 0,
    {
        assert(b * pow2(23) <= (2 * (w * u)) * pow2(23));
        assert((2 * (w * u)) * pow2(23) * 2 == u * (pow2(23) * (4 * w)));
        assert(u * (pow2(23) * (4 * w)) <= u * u);
        assert(2 * (a * u) >= u * u);
        assert(a * u <= (2 * (w * u)) * u);
        assert((2 * (w * u)) * u * 2 == u * ((4 * w) * u));
        assert(u * ((4 * w) * u) < u * pow2(276));
        assert(u * pow2(276) <= (2 * b) * pow2(276));
    }
    let r = lemma_over_close(x, y);
    // r * b ~ a * u ~ from * u * u, and r * b ~ r * to * u.
    lemma_close_scaled(c, a, from * u, 1, u);
    lemma_close_chain(c, r * b, a * u, (from * u) * u, 1, 1);
    lemma_close_scaled(c, b, to * u, 1, r);
    assert(b * r == r * b && (to * u) * r == (r * to) * u) by (nonlinear_arith);
    lemma_close_chain(c, (r * to) * u, r * b, (from * u) * u, 1, 2);
    lemma_close_unscaled(c, r * to, from * u, 3, u);
    lemma_pow2_adds(82, 66);
    lemma_pow2_adds(1, 148);
    lemma_pow2_adds(67, 149);
    lemma_pow2_adds(3, 64);
    assert(pow2(82) <= r) by (nonlinear_arith)
        requires
            (from * u) * (c - 3) <= (r * to) * c,
            c == 0x100_0000,
            from * u >= u,
            to <= w,
            u == 2 * (pow2(82) * (4 * w)),
            w > 0,
    {
        assert(r * to <= r * w);
        assert(u * (c - 3) <= (r * w) * c);
        assert(u <= 2 * (r * w));
        if r < pow2(82) {
            assert(r * w <= pow2(82) * w);
            assert(u == 8 * (pow2(82) * w));
            assert(pow2(82) * w > 0);
        }
    }
    assert(r <= pow2(216)) by (nonlinear_arith)
        requires
            (r * to) * (c - 3) <= (from * u) * c,
            c == 0x100_0000,
            from * u <= w * u,
            to >= 1,
            pow2(216) == (8 * w) * u,
            w > 0,
            u > 0,
    {
        assert(r <= r * to);
        assert(r * (c - 3) <= (w * u) * c);
    }
    r
}

/// The milliseconds that samples take, before they are cut off.
proof fn lemma_milliseconds_close(samples: nat, rate: nat) -> (m: nat)
    requires
        1 <= samples <= u64::MAX,
        1 <= rate <= u32::MAX,
    ensures
        ({
            let d = signal::milliseconds(samples, rate).datum();
            &&& !d.negative
            &&& Format::single().is_finite(d)
            &&& m == Format::single().size(d)
        }),
        close(0x100_0000, m * rate, (samples * 1000) * pow2(149), 4),
{
    let c = 0x100_0000nat;
    let u = pow2(149);
    let r = lemma_ratio_close(samples, rate);
    let x = Binary32::ratio(samples, rate);
    let k = Binary32::of_integer(1000);
    lemma_powers();
    numbers::lemma_small_integer(1000);
    lemma2_to64();
    rounding::lemma_pow2_le(23, 82);
    lemma_pow2_adds(216, 10);
    rounding::lemma_pow2_le(226, 275);
    lemma_pow2_adds(1, 275);
    lemma_pow2_pos(275);
    assert(u * pow2(23) <= r * (1000 * u) < u * pow2(276)) by (nonlinear_arith)
        requires
            pow2(23) <= r,
            r <= pow2(216),
            pow2(216) * 1024 <= pow2(275),
            pow2(276) == 2 * pow2(275),
            pow2(275) > 0,
            u > 0,
    {
        assert(u * pow2(23) <= u * r);
        assert(r * (1000 * u) == u * (1000 * r));
        assert(1000 * r < pow2(276));
        assert(u * (1000 * r) < u * pow2(276));
    }
    let m = lemma_times_close(x, k);
    assert(signal::milliseconds(samples, rate) == x.times(k)) by {
        reveal(signal::milliseconds);
    }
    assert(r * (1000 * u) == (1000 * r) * u) by (nonlinear_arith);
    lemma_close_unscaled(c, m, 1000 * r, 1, u);
    lemma_close_scaled(c, m, 1000 * r, 1, rate);
    lemma_close_scaled(c, r * rate, samples * u, 3, 1000);
    assert((1000 * r) * rate == (r * rate) * 1000) by (nonlinear_arith);
    lemma_close_chain(c, m * rate, (r * rate) * 1000, (samples * u) * 1000, 1, 3);
    assert((samples * u) * 1000 == (samples * 1000) * u) by (nonlinear_arith);
    m
}

/// The time of samples is, up to four parts in `2^24` and cut off to whole milliseconds, a
/// thousand times their number by the rate; for any number of samples at any rate.
pub proof fn lemma_time(samples: nat, rate: nat)
    requires
        samples <= u64::MAX,
        1 <= rate <= u32::MAX,
    ensures
        ({
            let told = signal::timestamp_ms(samples, rate);
            &&& told <= u64::MAX
            &&& (told * rate) * 0xff_fffc <= (samples * 1000) * 0x100_0000
            &&& told < u64::MAX ==> (samples * 1000) * 0xff_fffc < ((told + 1) * rate)
                * 0x100_0000
        }),
        ({
            let told = signal::whole_ms(samples, rate);
            &&& told <= u32::MAX
            &&& (told * rate) * 0xff_fffc <= (samples * 1000) * 0x100_0000
            &&& told < u32::MAX ==> (samples * 1000) * 0xff_fffc < ((told + 1) * rate)
                * 0x100_0000
        }),
{
    signal::lemma_timestamp_fits(samples, rate);
    let told = signal::timestamp_ms(samples, rate);
    if samples == 0 {
        signal::lemma_time_of_nothing(rate);
        assert((0 * rate) * 0xff_fffc == 0) by (nonlinear_arith);
        assert((0 + 1) * rate * 0x100_0000 > 0) by (nonlinear_arith)
            requires
                rate >= 1,
        ;
    } else {
        let m = lemma_milliseconds_close(samples, rate);
        let u = pow2(149);
        lemma_powers();
        assert(told * u <= m && (told < u64::MAX ==> m < (told + 1) * u)) by {
            let f = Format::single();
            lemma_integer_part(
                f,
                signal::milliseconds(samples, rate).datum(),
                u64::MAX as nat,
            );
        }
        lemma_cut_off(m, u, told, rate, samples * 1000, 4, u64::MAX as nat);
    }
    let short = signal::whole_ms(samples, rate);
    assert((short * rate) * 0xff_fffc <= (told * rate) * 0xff_fffc) by (nonlinear_arith)
        requires
            short <= told,
    ;
}

/// From a size that is close to the exact one to the integer that is cut off from it.
proof fn lemma_cut_off(m: nat, u: nat, n: nat, den: nat, num: nat, k: nat, max: nat)
    requires
        close(0x100_0000, m * den, num * u, k),
        k < 0x100_0000,
        u > 0,
        den > 0,
        n * u <= m,
        n < max ==> m < (n + 1) * u,
    ensures
        (n * den) * (0x100_0000 - k) <= num * 0x100_0000,
        n < max ==> num * (0x100_0000 - k) < ((n + 1) * den) * 0x100_0000,
{
    let c = 0x100_0000int;
    let d = c - k;
    assert((n * den) * d <= num * c) by (nonlinear_arith)
        requires
            (m * den) * d <= (num * u) * c,
            n * u <= m,
            d > 0,
            u > 0,
            den > 0,
    {
        assert((n * u) * den <= m * den);
        assert(((n * u) * den) * d <= (m * den) * d);
        assert(((n * u) * den) * d == ((n * den) * d) * u);
        assert((num * u) * c == (num * c) * u);
        let a = (n * den) * d;
        let b = num * c;
        if a > b {
            assert(a * u > b * u);
        }
    }
    if n < max {
        assert(num * d < ((n + 1) * den) * c) by (nonlinear_arith)
            requires
                (num * u) * d <= (m * den) * c,
                m < (n + 1) * u,
                c > 0,
                u > 0,
                den > 0,
        {
            assert(m * den < ((n + 1) * u) * den);
            assert((m * den) * c < (((n + 1) * u) * den) * c);
            assert((((n + 1) * u) * den) * c == (((n + 1) * den) * c) * u);
            assert((num * u) * d == (num * d) * u);
            let a = num * d;
            let b = ((n + 1) * den) * c;
            if a >= b {
                assert(a * u >= b * u);
            }
        }
    }
}

/// At the rate zero, no samples take no time, and any take longer than can be told.
pub proof fn lemma_time_at_rate_zero(samples: nat)
    requires
        samples <= u64::MAX,
    ensures
        samples == 0 ==> signal::timestamp_ms(samples, 0) == 0 && signal::whole_ms(samples, 0)
            == 0,
        samples > 0 ==> signal::timestamp_ms(samples, 0) == u64::MAX && signal::whole_ms(
            samples,
            0,
        ) == u32::MAX,
{
    reveal(signal::milliseconds);
    let f = Format::single();
    lemma_powers();
    arith::lemma_infinity_bounds(f);
    numbers::lemma_integers_ordered(0, samples);
    numbers::lemma_integers_ordered(1000, 1000);
    lemma_single_operations(Binary32::of_integer(samples), Binary32::of_integer(0), 0, 0);
    lemma_single_operations(Binary32::ratio(samples, 0), Binary32::of_integer(1000), 0, 0);
    let q = Binary32::ratio(samples, 0).datum();
    lemma_special_values(
        f,
        Binary32::of_integer(samples).datum(),
        Binary32::of_integer(0).datum(),
    );
    lemma_special_values(f, q, Binary32::of_integer(1000).datum());
}

// Resampling.

/// A chunk has, at another rate, as many samples as its time takes there, up to five parts
/// in `2^24` and cut off to a whole number, for any length and any two rates.
pub proof fn lemma_resampled_length(len: nat, from: nat, to: nat)
    requires
        len <= u64::MAX,
        1 <= from <= u32::MAX,
        1 <= to <= u32::MAX,
    ensures
        ({
            let n = signal::resampled_len(len, from, to);
            &&& (n * from) * 0xff_fffb <= (len * to) * 0x100_0000
            &&& n < usize::MAX ==> (len * to) * 0xff_fffb < ((n + 1) * from) * 0x100_0000
        }),
{
    let n = signal::resampled_len(len, from, to);
    let f = Format::single();
    let u = pow2(149);
    lemma_powers();
    if len == 0 {
        lemma_nothing_resampled(from, to);
        assert((0 * from) * 0xff_fffb == 0) by (nonlinear_arith);
        assert((0 * to) * 0xff_fffb == 0) by (nonlinear_arith);
        assert((0 + 1) * from * 0x100_0000 > 0) by (nonlinear_arith)
            requires
                from >= 1,
        ;
    } else {
        let s = lemma_length_close(len, from, to);
        lemma_integer_part(
            f,
            Binary32::of_integer(len).over(Binary32::ratio(from, to)).datum(),
            usize::MAX as nat,
        );
        lemma_cut_off(s, u, n, from, len * to, 5, usize::MAX as nat);
    }
}

proof fn lemma_nothing_resampled(from: nat, to: nat)
    requires
        1 <= from <= u32::MAX,
        1 <= to <= u32::MAX,
    ensures
        signal::resampled_len(0, from, to) == 0,
{
    let f = Format::single();
    let r = lemma_ratio_close(from, to);
    let d = Binary32::ratio(from, to).datum();
    let l = Binary32::of_integer(0).datum();
    lemma_powers();
    numbers::lemma_small_integer(0);
    numbers::lemma_integers_ordered(0, 0);
    lemma_single_operations(Binary32::of_integer(0), Binary32::ratio(from, to), 0, 0);
    arith::lemma_level_orders_values(f, d, l);
    lemma_pow2_pos(82);
    signal::lemma_round_of_nothing(r);
    assert(0 * pow2(149) == 0);
    assert((0 * pow2(149)) * pow2(149) == 0) by (nonlinear_arith);
    assert(f.quotient(l, d) == f.zero(false));
    arith::lemma_zero_has_no_integer_part(f, usize::MAX as nat);
}

/// The number of samples at another rate, before it is cut off.
proof fn lemma_length_close(len: nat, from: nat, to: nat) -> (s: nat)
    requires
        1 <= len <= u64::MAX,
        1 <= from <= u32::MAX,
        1 <= to <= u32::MAX,
    ensures
        ({
            let d = Binary32::of_integer(len).over(Binary32::ratio(from, to)).datum();
            &&& !d.negative
            &&& Format::single().is_finite(d)
            &&& s == Format::single().size(d)
        }),
        close(0x100_0000, s * from, (len * to) * pow2(149), 5),
{
    let c = 0x100_0000nat;
    let f = Format::single();
    let u = pow2(149);
    let l = lemma_integer_close(len);
    let r = lemma_ratio_close(from, to);
    let x = Binary32::of_integer(len);
    let y = Binary32::ratio(from, to);
    lemma_powers();
    lemma2_to64();
    lemma_pow2_pos(82);
    arith::lemma_level_orders_values(f, y.datum(), y.datum());
    lemma_rates_bound(from, to, r);
    lemma_integer_bounds(len, l);
    lemma_length_bounds(l, r);
    let s = lemma_over_close(x, y);
    // s * r ~ l * u ~ len * u * u, and s * r * to ~ s * from * u.
    lemma_close_scaled(c, l, len * u, 1, u);
    lemma_close_chain(c, s * r, l * u, (len * u) * u, 1, 1);
    lemma_close_scaled(c, s * r, (len * u) * u, 2, to);
    lemma_close_scaled(c, r * to, from * u, 3, s);
    assert((r * to) * s == (s * r) * to && (from * u) * s == (s * from) * u && ((len * u) * u) * to
        == ((len * to) * u) * u) by (nonlinear_arith);
    lemma_close_chain(c, (s * from) * u, (s * r) * to, ((len * to) * u) * u, 3, 2);
    lemma_close_unscaled(c, s * from, (len * to) * u, 5, u);
    s
}

/// The bounds of the quotient of two rates.
proof fn lemma_rates_bound(from: nat, to: nat, r: nat)
    requires
        1 <= from <= u32::MAX,
        1 <= to <= u32::MAX,
        close(0x100_0000, r * to, from * pow2(149), 3),
    ensures
        pow2(116) <= r <= pow2(182),
{
    let u = pow2(149);
    let c = 0x100_0000nat;
    let w = pow2(32);
    lemma2_to64();
    lemma_pow2_pos(149);
    lemma_pow2_adds(116, 33);
    lemma_pow2_adds(1, 32);
    lemma_pow2_adds(33, 149);
    assert(from * u >= u && from * u <= w * u) by (nonlinear_arith)
        requires
            1 <= from <= w,
            u > 0,
    ;
    assert(pow2(116) <= r) by (nonlinear_arith)
        requires
            (from * u) * (c - 3) <= (r * to) * c,
            c == 0x100_0000,
            from * u >= u,
            to < w,
            u == pow2(116) * (2 * w),
            w > 0,
    {
        assert(r * to <= r * w);
        assert(u * (c - 3) <= (r * w) * c);
        assert(u <= 2 * (r * w));
        if r < pow2(116) {
            assert(r + 1 <= pow2(116));
            assert((r + 1) * (2 * w) <= pow2(116) * (2 * w));
            assert((r + 1) * (2 * w) == 2 * (r * w) + 2 * w);
        }
    }
    assert(r <= pow2(182)) by (nonlinear_arith)
        requires
            (r * to) * (c - 3) <= (from * u) * c,
            c == 0x100_0000,
            from * u <= w * u,
            to >= 1,
            pow2(182) == (2 * w) * u,
            w > 0,
            u > 0,
    {
        assert(r <= r * to);
        assert(r * (c - 3) <= (w * u) * c);
    }
}

proof fn lemma_length_bounds(l: nat, r: nat)
    requires
        2 * l >= pow2(149),
        l <= pow2(214),
        pow2(116) <= r <= pow2(182),
    ensures
        r * pow2(23) <= l * pow2(149) < r * pow2(276),
{
    let u = pow2(149);
    lemma2_to64();
    lemma_pow2_pos(149);
    lemma_pow2_pos(276);
    lemma_pow2_adds(182, 23);
    lemma_pow2_adds(149, 149);
    lemma_pow2_adds(1, 205);
    rounding::lemma_pow2_le(206, 298);
    lemma_pow2_adds(116, 276);
    lemma_pow2_adds(214, 149);
    lemma_pow2_adds(1, 363);
    lemma_pow2_pos(363);
    rounding::lemma_pow2_le(364, 392);
    assert(r * pow2(23) <= l * u) by (nonlinear_arith)
        requires
            r <= pow2(182),
            2 * (pow2(182) * pow2(23)) <= u * u,
            2 * l >= u,
            u > 0,
            pow2(23) > 0,
    {
        assert(r * pow2(23) <= pow2(182) * pow2(23));
        assert((2 * l) * u >= u * u);
    }
    assert(l * u < r * pow2(276)) by (nonlinear_arith)
        requires
            l <= pow2(214),
            pow2(214) * u < pow2(116) * pow2(276),
            pow2(116) <= r,
            u > 0,
            pow2(276) > 0,
    {
        assert(l * u <= pow2(214) * u);
        assert(pow2(116) * pow2(276) <= r * pow2(276));
    }
}

/// The place of a sample of another rate, before it is cut off.
proof fn lemma_position_close(i: nat, from: nat, to: nat) -> (x: nat)
    requires
        1 <= i <= u64::MAX,
        1 <= from <= u32::MAX,
        1 <= to <= u32::MAX,
    ensures
        ({
            let d = signal::source_position(i, from, to).datum();
            &&& !d.negative
            &&& Format::single().is_finite(d)
            &&& x == Format::single().size(d)
        }),
        close(0x100_0000, x * to, (i * from) * pow2(149), 5),
{
    let c = 0x100_0000nat;
    let u = pow2(149);
    let a = lemma_integer_close(i);
    let r = lemma_ratio_close(from, to);
    lemma_powers();
    lemma_rates_bound(from, to, r);
    lemma_integer_bounds(i, a);
    lemma2_to64();
    rounding::lemma_pow2_le(24, 116);
    lemma_pow2_adds(1, 23);
    lemma_pow2_adds(214, 182);
    lemma_pow2_adds(149, 276);
    lemma_pow2_adds(1, 396);
    lemma_pow2_pos(396);
    rounding::lemma_pow2_le(397, 425);
    assert(u * pow2(23) <= a * r < u * pow2(276)) by (nonlinear_arith)
        requires
            2 * a >= u,
            a <= pow2(214),
            2 * pow2(23) <= r,
            r <= pow2(182),
            pow2(214) * pow2(182) < u * pow2(276),
            u > 0,
            pow2(23) > 0,
    {
        assert((2 * a) * r >= u * r);
        assert(u * r >= u * (2 * pow2(23)));
        assert(a * r <= pow2(214) * r);
        assert(pow2(214) * r <= pow2(214) * pow2(182));
    }
    let x = lemma_times_close(Binary32::of_integer(i), Binary32::ratio(from, to));
    // x * u ~ a * r ~ i * u * r, and x * to ~ i * r * to ~ i * from * u.
    lemma_close_scaled(c, a, i * u, 1, r);
    lemma_close_chain(c, x * u, a * r, (i * u) * r, 1, 1);
    assert((i * u) * r == (i * r) * u) by (nonlinear_arith);
    lemma_close_unscaled(c, x, i * r, 2, u);
    lemma_close_scaled(c, x, i * r, 2, to);
    lemma_close_scaled(c, r * to, from * u, 3, i);
    assert((r * to) * i == (i * r) * to && (from * u) * i == (i * from) * u) by (nonlinear_arith);
    lemma_close_chain(c, x * to, (i * r) * to, (i * from) * u, 2, 3);
    x
}

/// The place of the first sample is that of the first.
proof fn lemma_first_position(from: nat, to: nat)
    requires
        1 <= from <= u32::MAX,
        1 <= to <= u32::MAX,
    ensures
        signal::source_position(0, from, to).datum() == Format::single().zero(false),
        signal::source_index(0, from, to) == 0,
{
    let f = Format::single();
    let r = lemma_ratio_close(from, to);
    let d = Binary32::ratio(from, to).datum();
    let l = Binary32::of_integer(0).datum();
    lemma_powers();
    numbers::lemma_small_integer(0);
    numbers::lemma_integers_ordered(0, 0);
    lemma_single_operations(Binary32::of_integer(0), Binary32::ratio(from, to), 0, 0);
    arith::lemma_product_with_zero(f, d, l);
    arith::lemma_level_orders_values(f, l, l);
    signal::lemma_round_of_nothing(pow2(149));
    assert(0 * r == 0);
    assert(f.product(l, d) == f.zero(false));
    arith::lemma_zero_has_no_integer_part(f, usize::MAX as nat);
}

/// A sample of another rate lies, among those that there are, where its time is, up to five
/// parts in `2^24`: between the sample that it is taken from and the next one. For any
/// sample and any two rates.
pub proof fn lemma_source(i: nat, from: nat, to: nat)
    requires
        i <= u64::MAX,
        1 <= from <= u32::MAX,
        1 <= to <= u32::MAX,
    ensures
        ({
            let at = signal::source_index(i, from, to);
            let d = signal::source_position(i, from, to).datum();
            let x = Format::single().size(d);
            &&& !d.negative
            &&& Format::single().is_finite(d)
            &&& close(0x100_0000, x * to, (i * from) * pow2(149), 5)
            &&& at * pow2(149) <= x
            &&& at < usize::MAX ==> x < (at + 1) * pow2(149)
            &&& (at * to) * 0xff_fffb <= (i * from) * 0x100_0000
            &&& at < usize::MAX ==> (i * from) * 0xff_fffb < ((at + 1) * to) * 0x100_0000
        }),
{
    let at = signal::source_index(i, from, to);
    let d = signal::source_position(i, from, to).datum();
    let f = Format::single();
    let u = pow2(149);
    lemma_powers();
    if i == 0 {
        lemma_first_position(from, to);
        arith::lemma_infinity_bounds(f);
        arith::lemma_level_orders_values(f, d, d);
        let x = f.size(d);
        assert(x * to == 0 && (i * from) * u == 0 && at * u == 0 && (at + 1) * u == u && at * to
            == 0 && i * from == 0 && (at + 1) * to == to) by (nonlinear_arith)
            requires
                x == 0,
                i == 0,
                at == 0,
        ;
    } else {
        let x = lemma_position_close(i, from, to);
        lemma_integer_part(f, d, usize::MAX as nat);
        lemma_cut_off(x, u, at, to, i * from, 5, usize::MAX as nat);
    }
}

} // verus!
