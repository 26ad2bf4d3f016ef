//! How near the samples that are computed lie to those that are meant.

use vstd::arithmetic::div_mod::*;
use vstd::arithmetic::mul::*;
use vstd::arithmetic::power2::*;
use vstd::prelude::*;

use crate::accuracy;
use crate::arith;
use crate::arith::{Datum, Format};
use crate::config::SileroVADConfig;
use crate::numbers;
use crate::numbers::Binary32;
use crate::rounding;
use crate::signal;

verus! {

/// The value of a finite number, in quanta.
#[verifier::opaque]
pub open spec fn value(x: Binary32) -> int {
    Format::single().value(x.datum())
}

/// The magnitude of a finite number, in quanta.
#[verifier::opaque]
pub open spec fn size(x: Binary32) -> nat {
    Format::single().size(x.datum())
}

/// A number of less than `2^123` in magnitude.
pub open spec fn moderate(x: Binary32) -> bool {
    x.bits % 0x8000_0000 < 0x7d00_0000
}

/// How far apart two values are.
pub open spec fn distance(a: int, b: int) -> int {
    rounding::distance(a, b)
}

/// What moderate numbers have in common.
pub proof fn lemma_moderate(x: Binary32)
    requires
        moderate(x),
    ensures
        x.finite(),
        Format::single().is_finite(x.datum()),
        size(x) < pow2(272),
        distance(value(x), 0) == size(x),
{
    reveal(value);
    reveal(size);
    let f = Format::single();
    let top = Datum { negative: false, magnitude: 0x7d00_0000 };
    numbers::lemma_single_patterns();
    lemma2_to64();
    arith::lemma_level_orders_values(f, x.datum(), top);
    lemma_pow2_adds(23, 249);
    assert(f.size(top) == pow2(272));
    arith::lemma_level_orders_values(f, top, x.datum());
}

/// A sum in single precision.
proof fn lemma_plus(x: Binary32, y: Binary32)
    requires
        x.finite(),
        y.finite(),
        size(x) + size(y) < pow2(276),
    ensures
        ({
            let r = x.plus(y);
            let s = value(x) + value(y);
            &&& r.finite()
            &&& distance(value(r), s) * 0x100_0000 <= distance(s, 0)
            &&& size(r) == distance(value(r), 0)
        }),
{
    reveal(value);
    reveal(size);
    let f = Format::single();
    let s = value(x) + value(y);
    let num = distance(s, 0) as nat;
    accuracy::lemma_powers();
    numbers::lemma_patterns(x, y);
    numbers::lemma_patterns(y, x);
    numbers::lemma_patterns(x.plus(y), x);
    accuracy::lemma_single_operations(x, y, 0, 0);
    arith::lemma_infinity_bounds(f);
    arith::lemma_level_orders_values(f, f.zero(false), f.zero(true));
    if s != 0 {
        accuracy::lemma_rounded_near(f, s < 0, num, 1);
        let r = f.rounded(s < 0, num, 1);
        assert(f.size(r) * 1 == f.size(r));
    }
}

/// A product in single precision.
proof fn lemma_times(x: Binary32, y: Binary32)
    requires
        x.finite(),
        y.finite(),
        size(x) * size(y) < pow2(149) * pow2(276),
    ensures
        ({
            let r = x.times(y);
            &&& r.finite()
            &&& distance(value(r) * pow2(149), value(x) * value(y)) * 0x100_0000 <= size(x) * size(y)
                + pow2(149) * 0x80_0000
            &&& size(r) == distance(value(r), 0)
        }),
{
    reveal(value);
    reveal(size);
    let f = Format::single();
    let u = pow2(149);
    let (a, b) = (size(x), size(y));
    accuracy::lemma_powers();
    numbers::lemma_patterns(x, y);
    numbers::lemma_patterns(y, x);
    numbers::lemma_patterns(x.times(y), x);
    accuracy::lemma_single_operations(x, y, 0, 0);
    let negative = x.datum().negative != y.datum().negative;
    accuracy::lemma_rounded_near(f, negative, a * b, u);
    let r = x.times(y);
    let q = size(r);
    assert(value(x) * value(y) == if negative {
        -(a * b)
    } else {
        (a * b) as int
    }) by (nonlinear_arith)
        requires
            value(x) == (if x.datum().negative {
                -(a as int)
            } else {
                a as int
            }),
            value(y) == (if y.datum().negative {
                -(b as int)
            } else {
                b as int
            }),
            negative == (x.datum().negative != y.datum().negative),
    ;
    assert((-q) * u == -(q * u)) by (nonlinear_arith);
}

/// A quotient by an integer in single precision.
proof fn lemma_over(x: Binary32, c: nat)
    requires
        x.finite(),
        size(x) < pow2(276),
        1 <= c < 0x100_0000,
    ensures
        ({
            let r = x.over(Binary32::of_integer(c));
            &&& r.finite()
            &&& distance(value(r) * c, value(x)) * 0x100_0000 <= size(x) + c * 0x80_0000
        }),
{
    reveal(value);
    reveal(size);
    let f = Format::single();
    let u = pow2(149);
    let y = Binary32::of_integer(c);
    let a = size(x);
    accuracy::lemma_powers();
    numbers::lemma_small_integer(c);
    numbers::lemma_integers_ordered(c, c);
    numbers::lemma_patterns(x, y);
    numbers::lemma_patterns(x.over(y), x);
    accuracy::lemma_single_operations(x, y, 0, 0);
    let negative = x.datum().negative;
    assert((a * u) * c == a * (c * u)) by (nonlinear_arith);
    assert(c * u > 0) by (nonlinear_arith)
        requires
            c > 0,
            u > 0,
    ;
    rounding::lemma_round_ratio_ratio(24, a * u, c * u, a, c);
    assert(a < c * pow2(276)) by (nonlinear_arith)
        requires
            a < pow2(276),
            c >= 1,
    ;
    accuracy::lemma_rounded_near(f, negative, a, c);
    let q = size(x.over(y));
    assert((-q) * c == -(q * c)) by (nonlinear_arith);
}

// Resampling.

/// What the place of a sample is beyond the sample that it is taken from, in quanta.
pub open spec fn beyond(i: nat, from: nat, to: nat) -> int {
    size(signal::source_position(i, from, to)) - signal::source_index(i, from, to) * pow2(149)
}

/// The fraction between two samples is exact.
proof fn lemma_rest(i: nat, from: nat, to: nat)
    requires
        i <= u64::MAX,
        1 <= from <= u32::MAX,
        1 <= to <= u32::MAX,
        signal::source_index(i, from, to) < usize::MAX,
    ensures
        ({
            let at = signal::source_index(i, from, to);
            let rest = signal::source_position(i, from, to).minus(Binary32::of_integer(at));
            &&& rest.finite()
            &&& value(rest) == beyond(i, from, to)
            &&& 0 <= beyond(i, from, to) < pow2(149)
            &&& size(rest) == beyond(i, from, to)
        }),
{
    reveal(value);
    reveal(size);
    let f = Format::single();
    let u = pow2(149);
    let at = signal::source_index(i, from, to);
    let pos = signal::source_position(i, from, to);
    let x = size(pos);
    let q = Binary32::of_integer(at);
    accuracy::lemma_powers();
    accuracy::lemma_source(i, from, to);
    numbers::lemma_patterns(pos, q);
    numbers::lemma_integers_ordered(at, at);
    accuracy::lemma_single_operations(pos, q, at, 0);
    let (m, e) = arith::lemma_significand(f, pos.datum());
    assert((at + 1) * u == at * u + u) by (nonlinear_arith);
    let r = (x - at * u) as nat;
    // The integer is a number of the format.
    if e >= 149 {
        let k = (e - 149) as nat;
        lemma_pow2_adds(k, 149);
        let j = m * pow2(k);
        assert(x == j * u) by (nonlinear_arith)
            requires
                x == m * pow2(e),
                pow2(e) == pow2(k) * u,
                j == m * pow2(k),
        ;
        assert(j == at) by (nonlinear_arith)
            requires
                at * u <= j * u,
                j * u < (at + 1) * u,
                u > 0,
        ;
        rounding::lemma_round_of_quanta(24, pos.datum().magnitude as nat);
        assert(size(q) == at * u);
    } else {
        lemma_pow2_adds(e, (149 - e) as nat);
        lemma_pow2_pos(e);
        lemma_pow2_pos((149 - e) as nat);
        assert(at < 0x100_0000) by (nonlinear_arith)
            requires
                at * u <= x,
                x == m * pow2(e),
                m < 0x100_0000,
                u == pow2(e) * pow2((149 - e) as nat),
                pow2(e) > 0,
                pow2((149 - e) as nat) > 0,
        {
            assert(u >= pow2(e));
            assert(m * pow2(e) < 0x100_0000 * pow2(e));
            assert(0x100_0000 * pow2(e) <= 0x100_0000 * u);
            if at >= 0x100_0000 {
                assert(at * u >= 0x100_0000 * u);
            }
        }
        numbers::lemma_small_integer(at);
        // And the difference has no more bits.
        let v = pow2((149 - e) as nat);
        assert(at * u == (at * v) * pow2(e)) by (nonlinear_arith)
            requires
                u == pow2(e) * v,
        ;
        assert(m >= at * v) by (nonlinear_arith)
            requires
                (at * v) * pow2(e) <= m * pow2(e),
                pow2(e) > 0,
        ;
        let n = (m - at * v) as nat;
        assert(r == n * pow2(e)) by (nonlinear_arith)
            requires
                r == m * pow2(e) - (at * v) * pow2(e),
                n == m - at * v,
        ;
        rounding::lemma_round_exact(24, n, e);
    }
    let minus = q.negated();
    accuracy::lemma_single_operations(pos, minus, 0, 0);
    accuracy::lemma_single_operations(pos, q, 0, 0);
    numbers::lemma_patterns(pos.plus(minus), pos);
    numbers::lemma_patterns(minus, pos);
    assert(value(minus) == -(at * u));
    if r == 0 {
        arith::lemma_infinity_bounds(f);
        arith::lemma_level_orders_values(f, f.zero(false), f.zero(true));
    } else {
        rounding::lemma_pow2_le(149, 276);
        accuracy::lemma_rounded_near(f, false, r, 1);
        if e >= 149 {
            assert(false);
        }
    }
}

/// The other fraction is off by no more than one part in `2^24`.
proof fn lemma_other_fraction(rest: Binary32, r: nat)
    requires
        rest.finite(),
        value(rest) == r,
        size(rest) == r,
        r < pow2(149),
    ensures
        ({
            let w = Binary32::of_integer(1).minus(rest);
            &&& w.finite()
            &&& value(w) == size(w)
            &&& distance(size(w) as int, pow2(149) - r) * 0x100_0000 <= pow2(149) - r
            &&& r == 0 ==> size(w) == pow2(149)
        }),
{
    reveal(value);
    reveal(size);
    let f = Format::single();
    let u = pow2(149);
    let one = Binary32::of_integer(1);
    accuracy::lemma_powers();
    numbers::lemma_small_integer(1);
    numbers::lemma_patterns(one, rest);
    numbers::lemma_patterns(rest, one);
    accuracy::lemma_single_operations(one, rest, 0, 0);
    let minus = rest.negated();
    accuracy::lemma_single_operations(one, minus, 0, 0);
    numbers::lemma_patterns(minus, one);
    let w = one.plus(minus);
    numbers::lemma_patterns(w, one);
    assert(value(minus) == -r);
    lemma_pow2_adds(1, 149);
    lemma2_to64();
    rounding::lemma_pow2_le(150, 276);
    let s = (u - r) as nat;
    accuracy::lemma_rounded_near(f, false, s, 1);
    assert(size(w) * 1 == size(w));
    if r == 0 {
        lemma_pow2_adds(0, 149);
        lemma2_to64();
        rounding::lemma_round_exact(24, 1, 149);
    }
}

/// The four steps of an interpolation, put together.
proof fn lemma_interpolation_error(
    va: int,
    vb: int,
    u: int,
    r: int,
    w: int,
    v1: int,
    v2: int,
    vx: int,
)
    requires
        u > 0,
        0 <= r < u,
        distance(w, u - r) * 0x100_0000 <= u - r,
        distance(v1 * u, va * w) * 0x100_0000 <= distance(va, 0) * w + u * 0x80_0000,
        distance(v2 * u, vb * r) * 0x100_0000 <= distance(vb, 0) * r + u * 0x80_0000,
        distance(vx, v1 + v2) * 0x100_0000 <= distance(v1 + v2, 0),
    ensures
        distance(vx * u, va * (u - r) + vb * r) * 0x100_0000 <= 5 * ((distance(va, 0) + distance(
            vb,
            0,
        )) * u) + 2 * (u * 0x100_0000),
{
    let a = distance(va, 0);
    let b = distance(vb, 0);
    let (a1, a2, b1) = (va * w, va * (u - r), vb * r);
    let (m1, m2, mx) = (v1 * u, v2 * u, vx * u);
    let (au, bu) = (a * u, b * u);
    let e = distance(w, u - r);
    assert(a * w <= 2 * au) by (nonlinear_arith)
        requires
            e * 0x100_0000 <= u - r,
            w - (u - r) <= e,
            0 <= r < u,
            a >= 0,
            au == a * u,
    {
        assert(w <= 2 * u);
        assert(a * w <= a * (2 * u));
    }
    assert(b * r <= bu) by (nonlinear_arith)
        requires
            0 <= r < u,
            b >= 0,
            bu == b * u,
    ;
    assert(distance(a1, a2) * 0x100_0000 <= au) by (nonlinear_arith)
        requires
            a1 == va * w,
            a2 == va * (u - r),
            e * 0x100_0000 <= u - r,
            e == w - (u - r) || e == (u - r) - w,
            e >= 0,
            0 <= r < u,
            a == va || a == -va,
            a >= 0,
            au == a * u,
            distance(a1, a2) == a1 - a2 || distance(a1, a2) == a2 - a1,
            distance(a1, a2) >= 0,
    {
        assert(a1 - a2 == va * (w - (u - r)));
        assert(distance(a1, a2) <= a * e) by {
            assert(va * (w - (u - r)) <= a * e);
            assert(va * (w - (u - r)) >= -(a * e));
        }
        assert((a * e) * 0x100_0000 <= a * (u - r));
        assert(a * (u - r) <= a * u);
    }
    assert(-au <= a2 <= au) by (nonlinear_arith)
        requires
            a2 == va * (u - r),
            0 <= r < u,
            a == va || a == -va,
            a >= 0,
            au == a * u,
    ;
    assert(-bu <= b1 <= bu) by (nonlinear_arith)
        requires
            b1 == vb * r,
            0 <= r < u,
            b == vb || b == -vb,
            b >= 0,
            bu == b * u,
    ;
    assert(distance(mx, m1 + m2) * 0x100_0000 <= distance(m1 + m2, 0)) by (nonlinear_arith)
        requires
            mx == vx * u,
            m1 == v1 * u,
            m2 == v2 * u,
            u > 0,
            distance(vx, v1 + v2) * 0x100_0000 <= distance(v1 + v2, 0),
            distance(vx, v1 + v2) == (if vx < v1 + v2 {
                v1 + v2 - vx
            } else {
                vx - (v1 + v2)
            }),
            distance(v1 + v2, 0) == (if v1 + v2 < 0 {
                -(v1 + v2)
            } else {
                v1 + v2
            }),
            distance(mx, m1 + m2) == (if mx < m1 + m2 {
                m1 + m2 - mx
            } else {
                mx - (m1 + m2)
            }),
            distance(m1 + m2, 0) == (if m1 + m2 < 0 {
                -(m1 + m2)
            } else {
                m1 + m2
            }),
    {
        let d = vx - (v1 + v2);
        let s = v1 + v2;
        assert(mx - (m1 + m2) == d * u);
        assert(m1 + m2 == s * u);
        assert((distance(vx, v1 + v2) * 0x100_0000) * u <= distance(v1 + v2, 0) * u);
        assert((distance(vx, v1 + v2)) * u == distance(mx, m1 + m2)) by {
            if d < 0 {
                assert(d * u < 0);
                assert((-d) * u == -(d * u));
            } else {
                assert(d * u >= 0);
            }
        }
        assert(distance(v1 + v2, 0) * u == distance(m1 + m2, 0)) by {
            if s < 0 {
                assert(s * u < 0);
                assert((-s) * u == -(s * u));
            } else {
                assert(s * u >= 0);
            }
        }
    }
    assert((a + b) * u == au + bu) by (nonlinear_arith)
        requires
            au == a * u,
            bu == b * u,
    ;
}

/// A sample of another rate, between two samples that there are, lies on the line between
/// them: at the part of the way that its place tells, up to five parts in `2^24` of the two
/// and two quanta.
pub proof fn lemma_interpolation(s: Seq<Binary32>, from: nat, to: nat, i: nat)
    requires
        i <= u64::MAX,
        1 <= from <= u32::MAX,
        1 <= to <= u32::MAX,
        signal::source_index(i, from, to) + 1 < s.len(),
        s.len() <= usize::MAX,
        moderate(s[signal::source_index(i, from, to) as int]),
        moderate(s[signal::source_index(i, from, to) as int + 1]),
    ensures
        ({
            let at = signal::source_index(i, from, to) as int;
            let x = signal::interpolated(s, from, to, i);
            let (a, b) = (s[at], s[at + 1]);
            let u = pow2(149);
            let r = beyond(i, from, to);
            &&& x.finite()
            &&& 0 <= r < u
            &&& distance(value(x) * u, value(a) * (u - r) + value(b) * r) * 0x100_0000 <= 5 * ((size(
                a,
            ) + size(b)) * u) + 2 * (u * 0x100_0000)
            &&& r == 0 ==> value(x) == value(a)
        }),
{
    let at = signal::source_index(i, from, to) as int;
    let rest = signal::source_position(i, from, to).minus(Binary32::of_integer(at as nat));
    lemma_rest(i, from, to);
    lemma_mix(s[at], s[at + 1], rest, beyond(i, from, to) as nat);
}

/// Two numbers mixed by a fraction.
proof fn lemma_mix(a: Binary32, b: Binary32, rest: Binary32, r: nat)
    requires
        moderate(a),
        moderate(b),
        rest.finite(),
        value(rest) == r,
        size(rest) == r,
        r < pow2(149),
    ensures
        ({
            let x = a.times(Binary32::of_integer(1).minus(rest)).plus(b.times(rest));
            let u = pow2(149);
            &&& x.finite()
            &&& distance(value(x) * u, value(a) * (u - r) + value(b) * r) * 0x100_0000 <= 5 * ((size(
                a,
            ) + size(b)) * u) + 2 * (u * 0x100_0000)
            &&& r == 0 ==> value(x) == value(a)
        }),
{
    let u = pow2(149);
    let w = Binary32::of_integer(1).minus(rest);
    lemma_moderate(a);
    lemma_moderate(b);
    lemma_other_fraction(rest, r);
    lemma_mixed(a, b, w, rest, r);
    if r == 0 {
        lemma_whole_place(a, b, w, rest);
    }
}

proof fn lemma_mixed(a: Binary32, b: Binary32, w: Binary32, rest: Binary32, r: nat)
    requires
        a.finite(),
        b.finite(),
        w.finite(),
        rest.finite(),
        size(a) < pow2(272),
        size(b) < pow2(272),
        distance(value(a), 0) == size(a),
        distance(value(b), 0) == size(b),
        value(w) == size(w),
        value(rest) == r,
        size(rest) == r,
        r < pow2(149),
        distance(size(w) as int, pow2(149) - r) * 0x100_0000 <= pow2(149) - r,
    ensures
        ({
            let x = a.times(w).plus(b.times(rest));
            let u = pow2(149);
            &&& x.finite()
            &&& distance(value(x) * u, value(a) * (u - r) + value(b) * r) * 0x100_0000 <= 5 * ((size(
                a,
            ) + size(b)) * u) + 2 * (u * 0x100_0000)
        }),
{
    let u = pow2(149);
    let x1 = a.times(w);
    let x2 = b.times(rest);
    lemma_pow2_pos(149);
    lemma_fraction_bounds(a, w, u);
    lemma_fraction_bounds(b, rest, u);
    lemma_times(a, w);
    lemma_times(b, rest);
    lemma_product_size(value(x1), value(a), size(a), size(w), value(w), u);
    lemma_product_size(value(x2), value(b), size(b), size(rest), value(rest), u);
    lemma_pow2_adds(3, 273);
    lemma2_to64();
    lemma_plus(x1, x2);
    lemma_interpolation_error(
        value(a),
        value(b),
        u as int,
        r as int,
        size(w) as int,
        value(x1),
        value(x2),
        value(x1.plus(x2)),
    );
}

/// A fraction of a moderate number is a moderate one.
proof fn lemma_fraction_bounds(a: Binary32, w: Binary32, u: nat)
    requires
        u == pow2(149),
        size(a) < pow2(272),
        distance(size(w) as int, 0) <= 2 * u,
    ensures
        size(a) * size(w) < u * pow2(273),
        size(a) * size(w) < u * pow2(276),
{
    let (p, q) = (size(a), size(w));
    lemma_pow2_pos(149);
    lemma_pow2_adds(1, 272);
    lemma2_to64();
    lemma_pow2_pos(272);
    rounding::lemma_pow2_le(273, 276);
    assert(p * q < u * pow2(273) && u * pow2(273) <= u * pow2(276)) by (nonlinear_arith)
        requires
            p < pow2(272),
            q <= 2 * u,
            u > 0,
            pow2(273) == 2 * pow2(272),
            pow2(273) <= pow2(276),
            pow2(272) > 0,
    {
        assert(p * q <= p * (2 * u));
        assert(p * (2 * u) < pow2(272) * (2 * u));
    }
}

/// The size of a product.
proof fn lemma_product_size(v: int, va: int, a: nat, q: nat, vq: int, u: nat)
    requires
        u == pow2(149),
        distance(v * u, va * vq) * 0x100_0000 <= a * q + u * 0x80_0000,
        va == a || va == -a,
        vq == q || vq == -q,
        a * q < u * pow2(273),
    ensures
        2 * distance(v, 0) < 3 * pow2(273),
{
    lemma_pow2_pos(149);
    rounding::lemma_pow2_le(4, 273);
    lemma2_to64();
    let t = pow2(273);
    let n = distance(v, 0);
    assert(2 * n < 3 * t) by (nonlinear_arith)
        requires
            distance(v * u, va * vq) * 0x100_0000 <= a * q + u * 0x80_0000,
            distance(v * u, va * vq) >= v * u - va * vq,
            distance(v * u, va * vq) >= va * vq - v * u,
            va == a || va == -a,
            vq == q || vq == -q,
            a * q < u * t,
            n == v || n == -v,
            n >= 0,
            u > 0,
            t >= 16,
    {
        let d = distance(v * u, va * vq);
        let s = a * q;
        assert(va * vq == s || va * vq == -s);
        assert(n * u == v * u || n * u == -(v * u));
        assert(n * u <= s + d);
        assert(d * 0x100_0000 <= u * t + u * 0x80_0000);
        assert(u * t >= u * 16);
        assert((n * u) * 0x100_0000 <= (u * t) * 0x100_0000 + u * t + u * 0x80_0000);
        assert((2 * n) * u < (3 * t) * u);
        if 2 * n >= 3 * t {
            assert((2 * n) * u >= (3 * t) * u);
        }
    }
}

/// At a whole place, the sample is the one that is there.
proof fn lemma_whole_place(a: Binary32, b: Binary32, w: Binary32, rest: Binary32)
    requires
        moderate(a),
        moderate(b),
        w.finite(),
        rest.finite(),
        value(w) == pow2(149),
        size(w) == pow2(149),
        size(rest) == 0,
    ensures
        value(a.times(w).plus(b.times(rest))) == value(a),
{
    reveal(value);
    reveal(size);
    let f = Format::single();
    let u = pow2(149);
    accuracy::lemma_powers();
    lemma_moderate(a);
    lemma_moderate(b);
    let x1 = a.times(w);
    let x2 = b.times(rest);
    accuracy::lemma_single_operations(a, w, 0, 0);
    accuracy::lemma_single_operations(b, rest, 0, 0);
    accuracy::lemma_single_operations(x1, x2, 0, 0);
    numbers::lemma_patterns(w, rest);
    numbers::lemma_patterns(rest, w);
    assert((size(a) * u) * 1 == size(a) * u);
    rounding::lemma_round_ratio_ratio(24, size(a) * u, u, size(a), 1);
    rounding::lemma_round_of_quanta(24, a.datum().magnitude as nat);
    arith::lemma_level_orders_values(f, w.datum(), rest.datum());
    assert(!w.datum().negative);
    assert(size(x1) == size(a));
    assert(value(x1) == value(a));
    arith::lemma_product_with_zero(f, b.datum(), rest.datum());
    arith::lemma_level_orders_values(f, x2.datum(), x1.datum());
    assert(value(x2) == 0);
    if value(a) == 0 {
        arith::lemma_level_orders_values(f, f.zero(false), f.zero(true));
    } else {
        rounding::lemma_round_of_quanta(24, a.datum().magnitude as nat);
    }
}

/// A sample of another rate behind which there is none is the last one, as it is.
pub proof fn lemma_last_sample(s: Seq<Binary32>, from: nat, to: nat, i: nat)
    requires
        signal::source_index(i, from, to) + 1 == s.len(),
    ensures
        signal::interpolated(s, from, to, i) == s.last(),
{
}

/// A sample of another rate lies between the two samples that it is taken from, up to five
/// parts in `2^24` of the two and two quanta.
pub proof fn lemma_between_neighbours(s: Seq<Binary32>, from: nat, to: nat, i: nat)
    requires
        i <= u64::MAX,
        1 <= from <= u32::MAX,
        1 <= to <= u32::MAX,
        signal::source_index(i, from, to) + 1 < s.len(),
        s.len() <= usize::MAX,
        moderate(s[signal::source_index(i, from, to) as int]),
        moderate(s[signal::source_index(i, from, to) as int + 1]),
    ensures
        ({
            let at = signal::source_index(i, from, to) as int;
            let x = signal::interpolated(s, from, to, i);
            let (a, b) = (s[at], s[at + 1]);
            let low = if value(a) < value(b) {
                value(a)
            } else {
                value(b)
            };
            let high = if value(a) < value(b) {
                value(b)
            } else {
                value(a)
            };
            let slack = 5 * (size(a) + size(b)) + 2 * 0x100_0000;
            &&& x.finite()
            &&& low * 0x100_0000 - slack <= value(x) * 0x100_0000 <= high * 0x100_0000 + slack
        }),
{
    lemma_interpolation(s, from, to, i);
    accuracy::lemma_powers();
    let at = signal::source_index(i, from, to) as int;
    let x = value(signal::interpolated(s, from, to, i));
    let (va, vb) = (value(s[at]), value(s[at + 1]));
    let n = size(s[at]) + size(s[at + 1]);
    let u = pow2(149) as int;
    let r = beyond(i, from, to);
    let low = if va < vb {
        va
    } else {
        vb
    };
    let high = if va < vb {
        vb
    } else {
        va
    };
    let y = va * (u - r) + vb * r;
    assert(low * u <= y <= high * u) by (nonlinear_arith)
        requires
            y == va * (u - r) + vb * r,
            0 <= r < u,
            low <= va <= high,
            low <= vb <= high,
    {
        assert(low * (u - r) <= va * (u - r));
        assert(low * r <= vb * r);
        assert(va * (u - r) <= high * (u - r));
        assert(vb * r <= high * r);
        assert(low * (u - r) + low * r == low * u);
        assert(high * (u - r) + high * r == high * u);
    }
    let slack = 5 * n + 2 * 0x100_0000;
    assert(low * 0x100_0000 - slack <= x * 0x100_0000 <= high * 0x100_0000 + slack)
        by (nonlinear_arith)
        requires
            low * u <= y <= high * u,
            distance(x * u, y) * 0x100_0000 <= 5 * (n * u) + 2 * (u * 0x100_0000),
            distance(x * u, y) >= x * u - y,
            distance(x * u, y) >= y - x * u,
            slack == 5 * n + 2 * 0x100_0000,
            u > 0,
    {
        assert((x * u) * 0x100_0000 - y * 0x100_0000 <= slack * u);
        assert(y * 0x100_0000 - (x * u) * 0x100_0000 <= slack * u);
        assert((x * 0x100_0000) * u <= (high * 0x100_0000 + slack) * u);
        assert((low * 0x100_0000 - slack) * u <= (x * 0x100_0000) * u);
        let p = x * 0x100_0000;
        let q = high * 0x100_0000 + slack;
        let t = low * 0x100_0000 - slack;
        if p > q {
            assert(p * u > q * u);
        }
        if t > p {
            assert(t * u > p * u);
        }
    }
}

/// At another rate a chunk has the samples that are interpolated, at the same rate those
/// that it has.
pub proof fn lemma_resampled(s: Seq<Binary32>, from: nat, to: nat)
    ensures
        from == to ==> signal::resampled(s, from, to) == s,
        from != to ==> {
            &&& signal::resampled(s, from, to).len() == signal::resampled_len(s.len(), from, to)
            &&& forall|i: int|
                0 <= i < signal::resampled_len(s.len(), from, to) ==> #[trigger] signal::resampled(
                    s,
                    from,
                    to,
                )[i] == signal::interpolated(s, from, to, i as nat)
        },
{
}

/// A chunk of one value keeps it at every rate, up to ten parts in `2^24` and two quanta.
pub proof fn lemma_constant_stays(s: Seq<Binary32>, from: nat, to: nat, x: Binary32, i: nat)
    requires
        1 <= from <= u32::MAX,
        1 <= to <= u32::MAX,
        s.len() <= usize::MAX,
        signal::resamples(s.len(), from, to),
        moderate(x),
        forall|j: int| 0 <= j < s.len() ==> #[trigger] s[j] == x,
        i < signal::resampled(s, from, to).len(),
    ensures
        ({
            let y = signal::resampled(s, from, to)[i as int];
            &&& y.finite()
            &&& distance(value(y), value(x)) * 0x100_0000 <= 10 * size(x) + 2 * 0x100_0000
        }),
{
    lemma_moderate(x);
    lemma_resampled(s, from, to);
    if from == to {
        assert(s[i as int] == x);
    } else {
        let at = signal::source_index(i, from, to);
        assert(at < s.len());
        assert(s[at as int] == x);
        if at + 1 < s.len() {
            assert(s[at as int + 1] == x);
            lemma_between_neighbours(s, from, to, i);
        } else {
            lemma_last_sample(s, from, to, i);
        }
    }
}

// Mixing down.

/// The values of samples, added up exactly.
pub open spec fn total_value(s: Seq<Binary32>) -> int
    decreases s.len(),
{
    if s.len() == 0 {
        0
    } else {
        total_value(s.drop_last()) + value(s.last())
    }
}

/// The magnitudes of samples, added up exactly.
pub open spec fn total_size(s: Seq<Binary32>) -> nat
    decreases s.len(),
{
    if s.len() == 0 {
        0
    } else {
        total_size(s.drop_last()) + size(s.last())
    }
}

/// All samples are finite.
pub open spec fn all_finite(s: Seq<Binary32>) -> bool {
    forall|i: int| 0 <= i < s.len() ==> (#[trigger] s[i]).finite()
}

proof fn lemma_value_and_size(x: Binary32)
    ensures
        distance(value(x), 0) == size(x),
{
    reveal(value);
    reveal(size);
}

proof fn lemma_minus_zero()
    ensures
        (Binary32 { bits: 0x8000_0000 }).finite(),
        value(Binary32 { bits: 0x8000_0000 }) == 0,
        size(Binary32 { bits: 0x8000_0000 }) == 0,
{
    reveal(value);
    reveal(size);
    let f = Format::single();
    let z = (Binary32 { bits: 0x8000_0000 }).datum();
    numbers::lemma_single_patterns();
    arith::lemma_level_orders_values(f, z, z);
}

/// A sum of samples is the exact sum, up to two parts in `2^24` of all magnitudes a sample.
proof fn lemma_sum(s: Seq<Binary32>)
    requires
        all_finite(s),
        s.len() <= 0x40_0000,
        total_size(s) < pow2(274),
    ensures
        ({
            let r = signal::sum(s);
            &&& r.finite()
            &&& distance(value(r), total_value(s)) * 0x100_0000 <= 2 * (s.len() * total_size(s))
            &&& distance(total_value(s), 0) <= total_size(s)
            &&& size(r) <= 2 * total_size(s)
        }),
    decreases s.len(),
{
    if s.len() == 0 {
        lemma_minus_zero();
        assert(s.len() * total_size(s) == 0) by (nonlinear_arith)
            requires
                s.len() == 0,
        ;
    } else {
        let t = s.drop_last();
        let x = s.last();
        assert(x == s[s.len() - 1]);
        assert forall|i: int| 0 <= i < t.len() implies (#[trigger] t[i]).finite() by {
            assert(t[i] == s[i]);
        }
        lemma_sum(t);
        let b = signal::sum(t);
        let r = b.plus(x);
        let (k, small, all) = (t.len(), total_size(t), total_size(s));
        lemma_pow2_adds(2, 274);
        lemma2_to64();
        lemma_value_and_size(x);
        lemma_value_and_size(b);
        lemma_plus(b, x);
        lemma_value_and_size(r);
        assert(2 * (k * small) <= 0x80_0000 * small) by (nonlinear_arith)
            requires
                k <= 0x40_0000,
        ;
        assert((k + 1) * all >= k * small + all) by (nonlinear_arith)
            requires
                all >= small,
        ;
        let err = distance(value(r), total_value(s));
        assert(err * 0x100_0000 <= 2 * (k * small) + 2 * all);
        assert((k + 1) * all <= 0x40_0000 * all) by (nonlinear_arith)
            requires
                k + 1 <= 0x40_0000,
        ;
    }
}

/// There is one sample for each frame, the last of which may lack channels.
pub proof fn lemma_frames(s: Seq<Binary32>, channels: nat)
    requires
        channels >= 1,
    ensures
        ({
            let n = signal::downmix(s, channels).len();
            &&& s.len() <= n * channels
            &&& n * channels < s.len() + channels
        }),
{
    let n = signal::frames(s.len(), channels);
    let c = channels as int;
    let x = s.len() + c - 1;
    lemma_fundamental_div_mod(x, c);
    lemma_mod_pos_bound(x, c);
    assert(n * c == c * (x / c)) by (nonlinear_arith)
        requires
            n == x / c,
    ;
}

/// A sample of one channel in place of many is the mean of its frame, up to rounding: of
/// all samples that are in it, by the number of channels.
pub proof fn lemma_mean_of_frame(s: Seq<Binary32>, channels: nat, i: nat)
    requires
        2 <= channels <= 0x40_0000,
        i < signal::downmix(s, channels).len(),
        ({
            let end = (i + 1) * channels;
            let part = s.subrange(
                (i * channels) as int,
                if end < s.len() {
                    end as int
                } else {
                    s.len() as int
                },
            );
            all_finite(part) && total_size(part) < pow2(274)
        }),
    ensures
        ({
            let end = (i + 1) * channels;
            let part = s.subrange(
                (i * channels) as int,
                if end < s.len() {
                    end as int
                } else {
                    s.len() as int
                },
            );
            let r = signal::downmix(s, channels)[i as int];
            &&& r.finite()
            &&& distance(value(r) * channels, total_value(part)) * 0x100_0000 <= 2 * (channels
                * total_size(part)) + 2 * total_size(part) + channels * 0x80_0000
        }),
{
    lemma_frames(s, channels);
    let n = signal::downmix(s, channels).len();
    let end = (i + 1) * channels;
    let start = i * channels;
    assert(start < s.len() && end == start + channels) by (nonlinear_arith)
        requires
            i + 1 <= n,
            n * channels < s.len() + channels,
            start == i * channels,
            end == (i + 1) * channels,
    {
        assert((i + 1) * channels <= n * channels);
    }
    let part = s.subrange(
        start as int,
        if end < s.len() {
            end as int
        } else {
            s.len() as int
        },
    );
    assert(part.len() <= channels);
    lemma_sum(part);
    let m = signal::sum(part);
    lemma_pow2_adds(2, 274);
    lemma2_to64();
    lemma_over(m, channels);
    let r = m.over(Binary32::of_integer(channels));
    assert(signal::frame(s, channels, i as int) =~= part);
    assert(signal::downmix(s, channels)[i as int] == r);
    let t = total_size(part);
    assert(part.len() * t <= channels * t) by (nonlinear_arith)
        requires
            part.len() <= channels,
    ;
}

// The threshold of silence.

/// A threshold of silence that is not set lies fifteen hundredths below that of speech, up
/// to rounding, but not below zero.
pub proof fn lemma_default_silence_threshold(config: SileroVADConfig)
    requires
        config.neg_threshold is None,
        moderate(config.threshold),
        value(config.threshold) >= 0,
    ensures
        ({
            let t = value(config.threshold);
            let r = config.neg_threshold_in_force();
            let u = pow2(149);
            let below = if 100 * t < 15 * u {
                0
            } else {
                100 * t - 15 * u
            };
            &&& r.finite()
            &&& value(r) >= 0
            &&& distance(100 * value(r), below) * 0x100_0000 <= 200 * t + 100 * u
        }),
{
    let t = config.threshold;
    let h = Binary32::ratio(15, 100);
    let u = pow2(149);
    let r = accuracy::lemma_ratio_close(15, 100);
    lemma_moderate(t);
    lemma_hundredths(h, r);
    let x = t.minus(h);
    let zero = Binary32 { bits: 0 };
    lemma_minus_is_plus(t, h);
    lemma_pow2_adds(1, 272);
    lemma2_to64();
    rounding::lemma_pow2_le(150, 272);
    lemma_pow2_adds(1, 149);
    rounding::lemma_pow2_le(273, 276);
    lemma_plus(t, h.negated());
    lemma_order(x, zero);
    lemma_order(zero, x);
    lemma_order(x, t);
    lemma_order(t, x);
    lemma_order(zero, t);
    lemma_order(t, zero);
    lemma_zero();
}

/// Where speech is what is below zero, so is silence.
pub proof fn lemma_negative_silence_threshold(config: SileroVADConfig)
    requires
        config.neg_threshold is None,
        moderate(config.threshold),
        value(config.threshold) < 0,
    ensures
        config.neg_threshold_in_force() == config.threshold,
{
    let t = config.threshold;
    let h = Binary32::ratio(15, 100);
    let r = accuracy::lemma_ratio_close(15, 100);
    lemma_moderate(t);
    lemma_hundredths(h, r);
    let x = t.minus(h);
    let zero = Binary32 { bits: 0 };
    lemma_minus_is_plus(t, h);
    lemma_pow2_adds(1, 272);
    lemma2_to64();
    rounding::lemma_pow2_le(150, 272);
    lemma_pow2_adds(1, 149);
    rounding::lemma_pow2_le(273, 276);
    lemma_plus(t, h.negated());
    lemma_order(t, zero);
    lemma_order(x, zero);
    lemma_zero();
}

proof fn lemma_zero()
    ensures
        value(Binary32 { bits: 0 }) == 0,
{
    reveal(value);
    let f = Format::single();
    let z = (Binary32 { bits: 0 }).datum();
    numbers::lemma_single_patterns();
    arith::lemma_level_orders_values(f, z, z);
}

proof fn lemma_order(a: Binary32, b: Binary32)
    requires
        a.finite(),
        b.finite(),
    ensures
        !a.nan(),
        !b.nan(),
        a.at_least(b) <==> value(a) >= value(b),
{
    reveal(value);
    numbers::lemma_patterns(a, b);
}

proof fn lemma_minus_is_plus(a: Binary32, b: Binary32)
    requires
        b.finite(),
    ensures
        a.minus(b) == a.plus(b.negated()),
        b.negated().finite(),
        value(b.negated()) == -value(b),
        size(b.negated()) == size(b),
{
    reveal(value);
    reveal(size);
    accuracy::lemma_single_operations(a, b, 0, 0);
    numbers::lemma_patterns(b, a);
    numbers::lemma_patterns(b.negated(), a);
    accuracy::lemma_single_operations(a, b.negated(), 0, 0);
}

proof fn lemma_hundredths(h: Binary32, r: nat)
    requires
        h == Binary32::ratio(15, 100),
        !h.datum().negative,
        Format::single().is_finite(h.datum()),
        r == Format::single().size(h.datum()),
        accuracy::close(0x100_0000, r * 100, 15 * pow2(149), 3),
    ensures
        h.finite(),
        value(h) == r,
        size(h) == r,
        r < pow2(149),
        distance(100 * value(h), (15 * pow2(149)) as int) * 0x100_0000 <= 60 * pow2(149),
        value(h) > 0,
{
    reveal(value);
    reveal(size);
    numbers::lemma_patterns(h, h);
    lemma_pow2_pos(149);
}

// What is not a number.

proof fn lemma_not_a_number(x: Binary32, y: Binary32)
    requires
        x.nan() || y.nan(),
    ensures
        x.plus(y).nan(),
        x.times(y).nan(),
        x.over(y).nan(),
{
    numbers::lemma_single_patterns();
    numbers::lemma_patterns(x, y);
    numbers::lemma_patterns(y, x);
    numbers::lemma_patterns(x.plus(y), x);
    numbers::lemma_patterns(x.times(y), x);
    numbers::lemma_patterns(x.over(y), x);
    accuracy::lemma_single_operations(x, y, 0, 0);
    accuracy::lemma_special_values(Format::single(), x.datum(), y.datum());
}

/// Between two samples of which one is not a number, there is none.
pub proof fn lemma_no_number_between(s: Seq<Binary32>, from: nat, to: nat, i: nat)
    requires
        signal::source_index(i, from, to) + 1 < s.len(),
        s[signal::source_index(i, from, to) as int].nan() || s[signal::source_index(
            i,
            from,
            to,
        ) as int + 1].nan(),
    ensures
        signal::interpolated(s, from, to, i).nan(),
{
    let at = signal::source_index(i, from, to) as int;
    let rest = signal::source_position(i, from, to).minus(Binary32::of_integer(at as nat));
    let x = s[at].times(Binary32::of_integer(1).minus(rest));
    let y = s[at + 1].times(rest);
    if s[at].nan() {
        lemma_not_a_number(s[at], Binary32::of_integer(1).minus(rest));
    } else {
        lemma_not_a_number(s[at + 1], rest);
    }
    lemma_not_a_number(x, y);
}

proof fn lemma_no_sum(s: Seq<Binary32>, i: int)
    requires
        0 <= i < s.len(),
        s[i].nan(),
    ensures
        signal::sum(s).nan(),
    decreases s.len(),
{
    let t = s.drop_last();
    if i < t.len() {
        lemma_no_sum(t, i);
    }
    lemma_not_a_number(signal::sum(t), s.last());
}

/// A frame in which a sample is not a number has no mean.
pub proof fn lemma_no_mean(s: Seq<Binary32>, channels: nat, i: nat, j: int)
    requires
        channels >= 1,
        i < signal::downmix(s, channels).len(),
        i * channels <= j < (i + 1) * channels,
        j < s.len(),
        s[j].nan(),
    ensures
        signal::downmix(s, channels)[i as int].nan(),
{
    let part = signal::frame(s, channels, i as int);
    let at = j - i * channels;
    assert(0 <= i * channels) by (nonlinear_arith)
        requires
            i >= 0,
            channels >= 1,
    ;
    assert(part[at] == s[j]);
    lemma_no_sum(part, at);
    lemma_not_a_number(signal::sum(part), Binary32::of_integer(channels));
}

} // verus!
