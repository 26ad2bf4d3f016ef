//! How near the level of a chunk, and the share of accepted speech, lie to those that are
//! meant.

use vstd::arithmetic::mul::*;
use vstd::arithmetic::power2::*;
use vstd::prelude::*;

use crate::accuracy;
use crate::arith;
use crate::arith::{Datum, Format};
use crate::coordinator::CoordinatorModel;
use crate::fidelity;
use crate::numbers;
use crate::numbers::{Binary32, Binary64};
use crate::rounding;
use crate::signal;

verus! {

/// The parts of a number of the wider format that can be told.
pub open spec fn parts() -> nat {
    0x20_0000_0000_0000
}

/// The magnitude of a finite number of the wider format, in its quanta.
#[verifier::opaque]
pub open spec fn size(x: Binary64) -> nat {
    Format::double().size(x.datum())
}

/// A number of the wider format that is not below zero.
#[verifier::opaque]
pub open spec fn plain(x: Binary64) -> bool {
    Format::double().is_finite(x.datum()) && !x.datum().negative
}

proof fn lemma_wide_powers()
    ensures
        pow2(53) == parts(),
        pow2(52) * 2 == parts(),
        pow2(1074) > 0,
        accuracy::limit(Format::double()) == pow2(2097),
        Format::double().valid(),
{
    lemma2_to64();
    lemma2_to64_rest();
    lemma_pow2_pos(1074);
    numbers::lemma_double_patterns();
}

/// The squares of the magnitudes of samples, added up exactly.
pub open spec fn total_square(s: Seq<Binary32>) -> nat
    decreases s.len(),
{
    if s.len() == 0 {
        0
    } else {
        total_square(s.drop_last()) + fidelity::size(s.last()) * fidelity::size(s.last())
    }
}

/// All samples are below `2^123` in magnitude.
pub open spec fn all_moderate(s: Seq<Binary32>) -> bool {
    forall|i: int| 0 <= i < s.len() ==> fidelity::moderate(#[trigger] s[i])
}

/// The square of a sample is exact.
proof fn lemma_square(x: Binary32)
    requires
        fidelity::moderate(x),
    ensures
        ({
            let y = x.widened();
            let n = fidelity::size(x);
            &&& plain(y.times(y))
            &&& size(y.times(y)) == (n * n) * pow2(776)
            &&& n < pow2(272)
        }),
{
    reveal(size);
    reveal(plain);
    reveal(fidelity::size);
    let f = Format::single();
    let g = Format::double();
    let y = x.widened();
    let d = y.datum();
    let n = fidelity::size(x);
    lemma_wide_powers();
    fidelity::lemma_moderate(x);
    numbers::lemma_single_patterns();
    numbers::lemma_widened_size(x.datum());
    accuracy::lemma_single_operations(x, x, 0, 0);
    accuracy::lemma_double_operations(y, y, 0);
    let w = n * pow2(925);
    let k = pow2(776);
    let v = pow2(1074);
    lemma_pow2_adds(925, 925);
    lemma_pow2_adds(776, 1074);
    assert((w * w) * 1 == ((n * n) * k) * v) by (nonlinear_arith)
        requires
            w == n * pow2(925),
            pow2(925) * pow2(925) == k * v,
    {
        assert(w * w == (n * n) * (pow2(925) * pow2(925)));
        assert(((n * n) * k) * v == (n * n) * (k * v));
    }
    rounding::lemma_round_ratio_ratio(53, w * w, v, (n * n) * k, 1);
    let (m, e) = arith::lemma_significand(f, x.datum());
    lemma2_to64();
    lemma_pow2_adds(24, 24);
    rounding::lemma_pow2_le(48, 53);
    assert(m * m < pow2(48)) by (nonlinear_arith)
        requires
            m < pow2(24),
            pow2(24) * pow2(24) == pow2(48),
    ;
    lemma_pow2_adds(e, e);
    lemma_pow2_adds(e + e, 776);
    assert((n * n) * k == (m * m) * pow2(e + e + 776)) by (nonlinear_arith)
        requires
            n == m * pow2(e),
            pow2(e + e + 776) == pow2(e + e) * k,
            pow2(e + e) == pow2(e) * pow2(e),
    ;
    rounding::lemma_round_exact(53, m * m, e + e + 776);
    lemma_pow2_adds(272, 272);
    lemma_pow2_adds(544, 776);
    rounding::lemma_pow2_le(1320, 2097);
    lemma_pow2_pos(776);
    assert((n * n) * k < 1 * pow2(2097)) by (nonlinear_arith)
        requires
            n < pow2(272),
            pow2(272) * pow2(272) == pow2(544),
            pow2(544) * k <= pow2(2097),
            k > 0,
    {
        assert(n * n < pow2(272) * pow2(272));
        assert((n * n) * k < pow2(544) * k);
    }
    accuracy::lemma_rounded_near(g, false, (n * n) * k, 1);
}

/// A sum of two numbers that are not below zero.
proof fn lemma_wide_plus(x: Binary64, y: Binary64)
    requires
        plain(x),
        plain(y),
        size(x) + size(y) < pow2(2097),
    ensures
        plain(x.plus(y)),
        accuracy::close(parts(), size(x.plus(y)), size(x) + size(y), 1),
{
    reveal(size);
    reveal(plain);
    let g = Format::double();
    let s = size(x) + size(y);
    lemma_wide_powers();
    accuracy::lemma_double_operations(x, y, 0);
    arith::lemma_infinity_bounds(g);
    arith::lemma_level_orders_values(g, g.zero(false), g.zero(false));
    if s > 0 {
        accuracy::lemma_rounded_near(g, false, s, 1);
    }
}

/// The squares of samples add up to the exact sum, up to one part in `2^53` a sample.
proof fn lemma_squares(s: Seq<Binary32>)
    requires
        all_moderate(s),
        s.len() <= 0x1_0000_0000,
    ensures
        plain(signal::sum_of_squares(s)),
        accuracy::close(
            parts(),
            size(signal::sum_of_squares(s)),
            total_square(s) * pow2(776),
            s.len(),
        ),
        total_square(s) <= s.len() * pow2(544),
    decreases s.len(),
{
    let k = pow2(776);
    if s.len() == 0 {
        reveal(size);
        reveal(plain);
        let g = Format::double();
        numbers::lemma_double_patterns();
        arith::lemma_infinity_bounds(g);
        arith::lemma_level_orders_values(g, g.zero(false), g.zero(false));
        assert((Binary64 { bits: 0 }).datum() == g.zero(false));
        assert(total_square(s) * k == 0) by (nonlinear_arith)
            requires
                total_square(s) == 0,
        ;
        assert(s.len() * pow2(544) == 0) by (nonlinear_arith)
            requires
                s.len() == 0,
        ;
    } else {
        let t = s.drop_last();
        let x = s.last();
        assert(x == s[s.len() - 1]);
        assert forall|i: int| 0 <= i < t.len() implies fidelity::moderate(#[trigger] t[i]) by {
            assert(t[i] == s[i]);
        }
        lemma_squares(t);
        lemma_square(x);
        let b = signal::sum_of_squares(t);
        let y = x.widened();
        let z = y.times(y);
        let n = fidelity::size(x);
        let (u, v) = (total_square(t) * k, (n * n) * k);
        lemma_pow2_adds(272, 272);
        assert(n * n <= pow2(544)) by (nonlinear_arith)
            requires
                n < pow2(272),
                pow2(272) * pow2(272) == pow2(544),
        ;
        assert((t.len() + 1) * pow2(544) == t.len() * pow2(544) + pow2(544)) by (nonlinear_arith);
        assert((total_square(t) + n * n) * k == u + v) by (nonlinear_arith)
            requires
                u == total_square(t) * k,
                v == (n * n) * k,
        ;
        lemma_sum_fits(size(b), total_square(t), t.len(), v, n);
        lemma_wide_plus(b, z);
        accuracy::lemma_close_shifted(parts(), size(b), u, t.len(), v);
        accuracy::lemma_close_chain(parts(), size(b.plus(z)), size(b) + v, u + v, 1, t.len());
    }
}

proof fn lemma_sum_fits(b: nat, total: nat, len: nat, v: nat, n: nat)
    requires
        accuracy::close(parts(), b, total * pow2(776), len),
        total <= len * pow2(544),
        len < 0x1_0000_0000,
        v == (n * n) * pow2(776),
        n * n <= pow2(544),
    ensures
        b + v < pow2(2097),
{
    let k = pow2(776);
    let t = pow2(1320);
    lemma2_to64_rest();
    lemma2_to64();
    lemma_pow2_adds(544, 776);
    lemma_pow2_pos(1320);
    lemma_pow2_adds(34, 1320);
    lemma_pow2_adds(1, 1354);
    lemma_pow2_pos(1354);
    rounding::lemma_pow2_le(1355, 2097);
    assert(total * k <= 0x1_0000_0000 * t) by (nonlinear_arith)
        requires
            total <= len * pow2(544),
            len < 0x1_0000_0000,
            t == pow2(544) * k,
    {
        assert(total * k <= (len * pow2(544)) * k);
        assert((len * pow2(544)) * k == len * t);
    }
    assert(v <= t) by (nonlinear_arith)
        requires
            v == (n * n) * k,
            n * n <= pow2(544),
            t == pow2(544) * k,
    ;
    let x = total * k;
    assert(b <= 2 * x) by (nonlinear_arith)
        requires
            b * (parts() - len) <= x * parts(),
            parts() == 0x20_0000_0000_0000,
            len < 0x1_0000_0000,
    ;
}

/// The root of a number that is not tiny: its square is the number, up to three parts.
proof fn lemma_root_close(x: Binary64)
    requires
        plain(x),
        size(x) >= pow2(100),
    ensures
        plain(x.root()),
        accuracy::close(parts(), size(x.root()) * size(x.root()), size(x) * pow2(1074), 3),
        size(x.root()) > 0,
{
    reveal(size);
    reveal(plain);
    let g = Format::double();
    let c = parts();
    let d = x.datum();
    let n = size(x) * pow2(1074);
    let r = arith::floor_root(n);
    lemma_wide_powers();
    accuracy::lemma_double_operations(x, x, 0);
    arith::lemma_infinity_bounds(g);
    arith::lemma_level_orders_values(g, d, d);
    arith::lemma_floor_root(n);
    lemma_pow2_pos(100);
    lemma_pow2_adds(100, 1074);
    lemma_pow2_adds(587, 587);
    lemma_pow2_pos(1074);
    assert(n >= pow2(1174)) by (nonlinear_arith)
        requires
            n == size(x) * pow2(1074),
            size(x) >= pow2(100),
            pow2(1174) == pow2(100) * pow2(1074),
            pow2(1074) > 0,
    ;
    let b = pow2(586);
    lemma_pow2_adds(1, 586);
    lemma2_to64();
    lemma_pow2_pos(586);
    assert(r >= b) by (nonlinear_arith)
        requires
            n < (r + 1) * (r + 1),
            n >= (2 * b) * (2 * b),
            b > 0,
    {
        if r < b {
            assert(r + 1 <= b);
            assert((r + 1) * (r + 1) <= b * b);
        }
    }
    lemma_pow2_adds(55, 531);
    rounding::lemma_pow2_le(55, 586);
    lemma2_to64_rest();
    assert(r >= 4 * c);
    // The root lies below the limit of the format.
    let (m, e) = arith::lemma_significand(g, d);
    lemma_root_fits(x, r, n, m, e);
    let q = g.root(d);
    if r * r == n {
        accuracy::lemma_rounded_near(g, false, r, 1);
        let a = g.size(q);
        accuracy::lemma_close_scaled(c, a, r, 1, a);
        accuracy::lemma_close_scaled(c, a, r, 1, r);
        assert(a * r == r * a) by (nonlinear_arith);
        accuracy::lemma_close_chain(c, a * a, r * a, r * r, 1, 1);
        lemma_close_weaker(c, a * a, n, 2, 3);
        lemma_positive(c, a, r, 1);
    } else {
        let num = 2 * r + 1;
        accuracy::lemma_rounded_near(g, false, num, 2);
        let a = g.size(q);
        let t = a * 2;
        accuracy::lemma_close_scaled(c, t, num, 1, t);
        accuracy::lemma_close_scaled(c, t, num, 1, num);
        assert(t * num == num * t) by (nonlinear_arith);
        accuracy::lemma_close_chain(c, t * t, num * t, num * num, 1, 1);
        lemma_middle_square(c, r, n);
        accuracy::lemma_close_near(c, num * num, 4 * n);
        accuracy::lemma_close_chain(c, t * t, num * num, 4 * n, 2, 1);
        assert(t * t == (a * a) * 4) by (nonlinear_arith)
            requires
                t == a * 2,
        ;
        accuracy::lemma_close_unscaled(c, a * a, n, 3, 4);
        lemma_positive(c, t, num, 1);
    }
}

proof fn lemma_middle_square(c: nat, r: nat, n: nat)
    requires
        r * r <= n < (r + 1) * (r + 1),
        r >= 4 * c,
        c > 0,
    ensures
        rounding::distance(((2 * r + 1) * (2 * r + 1)) as int, (4 * n) as int) * c <= 4 * n,
{
    let x = (2 * r + 1) * (2 * r + 1);
    let y = 4 * n;
    let d = rounding::distance(x as int, y as int);
    assert(d <= 4 * r + 4) by (nonlinear_arith)
        requires
            x == (2 * r + 1) * (2 * r + 1),
            y == 4 * n,
            r * r <= n < (r + 1) * (r + 1),
            d == x - y || d == y - x,
    {
        assert(x == 4 * (r * r) + 4 * r + 1);
        assert((r + 1) * (r + 1) == r * r + 2 * r + 1);
    }
    assert(d * c <= y) by (nonlinear_arith)
        requires
            d <= 4 * r + 4,
            y == 4 * n,
            r * r <= n,
            r >= 4 * c,
            c > 0,
    {
        assert(d * c <= (4 * r + 4) * c);
        assert((4 * r + 4) * c <= (8 * r) * c);
        assert((8 * r) * c <= (2 * r) * r) by {
            assert((2 * r) * (4 * c) <= (2 * r) * r);
        }
    }
}

proof fn lemma_close_weaker(c: nat, x: nat, y: nat, j: nat, k: nat)
    requires
        accuracy::close(c, x, y, j),
        j <= k <= c,
    ensures
        accuracy::close(c, x, y, k),
{
    assert(x * (c - k) <= y * c && y * (c - k) <= x * c) by (nonlinear_arith)
        requires
            x * (c - j) <= y * c,
            y * (c - j) <= x * c,
            j <= k,
    {
        assert(x * (c - k) <= x * (c - j));
        assert(y * (c - k) <= y * (c - j));
    }
}

proof fn lemma_positive(c: nat, x: nat, y: nat, k: nat)
    requires
        accuracy::close(c, x, y, k),
        y > 0,
        k < c,
    ensures
        x > 0,
{
    assert(x > 0) by (nonlinear_arith)
        requires
            y * (c - k) <= x * c,
            y > 0,
            c - k > 0,
    {
        assert(y * (c - k) > 0);
        if x == 0 {
            assert(x * c == 0);
        }
    }
}

proof fn lemma_root_fits(x: Binary64, r: nat, n: nat, m: nat, e: nat)
    requires
        n == size(x) * pow2(1074),
        size(x) == m * pow2(e),
        m < pow2(53),
        e < 2047,
        r * r <= n,
    ensures
        r < pow2(2090),
        2 * r + 1 < 2 * pow2(2097),
        r < pow2(2097),
{
    lemma_pow2_adds(53, e);
    rounding::lemma_pow2_le(53 + e, 2100);
    lemma_pow2_adds(2100, 1074);
    lemma_pow2_adds(2090, 2090);
    rounding::lemma_pow2_le(3174, 4180);
    lemma_pow2_pos(e);
    lemma_pow2_pos(1074);
    lemma_pow2_pos(2090);
    let b = pow2(2090);
    assert(n < pow2(3174)) by (nonlinear_arith)
        requires
            n == size(x) * pow2(1074),
            size(x) == m * pow2(e),
            m < pow2(53),
            pow2(53) * pow2(e) <= pow2(2100),
            pow2(3174) == pow2(2100) * pow2(1074),
            pow2(e) > 0,
            pow2(1074) > 0,
    {
        assert(m * pow2(e) < pow2(53) * pow2(e));
    }
    assert(r < b) by (nonlinear_arith)
        requires
            r * r <= n,
            n < b * b,
            b > 0,
    {
        if r >= b {
            assert(r * r >= b * b);
        }
    }
    rounding::lemma_pow2_le(2091, 2097);
    lemma_pow2_adds(1, 2090);
    lemma2_to64();
}

/// The mean of a sum.
proof fn lemma_mean_close(x: Binary64, n: nat)
    requires
        plain(x),
        pow2(776) <= 2 * size(x),
        size(x) < pow2(1400),
        1 <= n <= 0x1_0000_0000,
    ensures
        plain(x.over(Binary64::of_integer(n))),
        accuracy::close(parts(), size(x.over(Binary64::of_integer(n))) * n, size(x), 2),
        size(x.over(Binary64::of_integer(n))) >= pow2(100),
{
    reveal(size);
    reveal(plain);
    let g = Format::double();
    let c = parts();
    let v = pow2(1074);
    let y = Binary64::of_integer(n);
    lemma_wide_powers();
    accuracy::lemma_double_operations(x, y, n);
    arith::lemma_of_integer(g, n, n);
    arith::lemma_infinity_bounds(g);
    let (a, b) = (size(x), size(y));
    // The divisor.
    lemma_pow2_adds(33, 1074);
    rounding::lemma_pow2_le(1107, 2097);
    lemma2_to64_rest();
    lemma2_to64();
    assert(n * v < 1 * pow2(2097)) by (nonlinear_arith)
        requires
            n < pow2(33),
            pow2(33) * v <= pow2(2097),
            v > 0,
    ;
    accuracy::lemma_rounded_near(g, false, n * v, 1);
    arith::lemma_level_orders_values(g, y.datum(), y.datum());
    assert(v <= n * v && n * v <= 0x1_0000_0000 * v) by (nonlinear_arith)
        requires
            1 <= n <= 0x1_0000_0000,
    ;
    assert(2 * b >= v && b <= 0x2_0000_0000 * v) by (nonlinear_arith)
        requires
            b * (c - 1) <= (n * v) * c,
            (n * v) * (c - 1) <= b * c,
            c == 0x20_0000_0000_0000,
            v <= n * v,
            n * v <= 0x1_0000_0000 * v,
    ;
    // The quotient.
    lemma_pow2_adds(33, 52);
    lemma_pow2_adds(1, 85);
    rounding::lemma_pow2_le(86, 776);
    lemma_pow2_adds(1, 1400);
    rounding::lemma_pow2_le(1401, 2097);
    assert(b * pow2(52) <= a * v < b * pow2(2097)) by (nonlinear_arith)
        requires
            2 * b >= v,
            b <= pow2(33) * v,
            2 * a >= pow2(776),
            2 * (pow2(33) * pow2(52)) <= pow2(776),
            a < pow2(1400),
            2 * pow2(1400) <= pow2(2097),
            v > 0,
            pow2(52) > 0,
    {
        assert(b * pow2(52) <= (pow2(33) * v) * pow2(52));
        assert((pow2(33) * v) * pow2(52) == (pow2(33) * pow2(52)) * v);
        assert(2 * ((pow2(33) * pow2(52)) * v) <= pow2(776) * v);
        assert(pow2(776) * v <= (2 * a) * v);
        assert(a * v < pow2(1400) * v);
        assert((2 * pow2(1400)) * v <= pow2(2097) * v);
        assert(pow2(2097) * v <= pow2(2097) * (2 * b));
    }
    accuracy::lemma_rounded_near(g, false, a * v, b);
    let q = size(x.over(y));
    accuracy::lemma_close_scaled(c, b, n * v, 1, q);
    assert(b * q == q * b && (n * v) * q == (q * n) * v) by (nonlinear_arith);
    accuracy::lemma_close_chain(c, (q * n) * v, q * b, a * v, 1, 1);
    accuracy::lemma_close_unscaled(c, q * n, a, 2, v);
    lemma_pow2_adds(100, 35);
    rounding::lemma_pow2_le(135, 776);
    assert(q >= pow2(100)) by (nonlinear_arith)
        requires
            a * (c - 2) <= (q * n) * c,
            c == 0x20_0000_0000_0000,
            2 * a >= pow2(100) * 0x8_0000_0000,
            n <= 0x1_0000_0000,
            pow2(100) > 0,
    {
        assert(q * n <= q * 0x1_0000_0000);
        assert(a <= 2 * (q * n));
        if q < pow2(100) {
            assert(q * 0x1_0000_0000 < pow2(100) * 0x1_0000_0000);
        }
    }
}

/// The root of the mean square, before it is narrowed: its square by the number of samples
/// is the sum of the squares.
proof fn lemma_wide_rms(s: Seq<Binary32>) -> (r: nat)
    requires
        all_moderate(s),
        1 <= s.len() <= 0x1_0000_0000,
        total_square(s) > 0,
    ensures
        ({
            let x = signal::sum_of_squares(s).over(Binary64::of_integer(s.len())).root();
            &&& plain(x)
            &&& r == size(x)
        }),
        accuracy::close(
            parts(),
            (r * r) * s.len(),
            total_square(s) * (pow2(925) * pow2(925)),
            s.len() + 5,
        ),
        total_square(s) <= s.len() * pow2(544),
{
    let c = parts();
    let n = s.len();
    let t = total_square(s);
    let k = pow2(776);
    let v = pow2(1074);
    let sum = signal::sum_of_squares(s);
    let mean = sum.over(Binary64::of_integer(n));
    let root = mean.root();
    lemma_squares(s);
    lemma_sum_bounds(size(sum), t, n);
    lemma_mean_close(sum, n);
    lemma_root_close(mean);
    let (a, m, r) = (size(sum), size(mean), size(root));
    // m * n ~ a ~ t * k, and r * r ~ m * v.
    accuracy::lemma_close_chain(c, m * n, a, t * k, 2, n);
    accuracy::lemma_close_scaled(c, m * n, t * k, n + 2, v);
    accuracy::lemma_close_scaled(c, r * r, m * v, 3, n);
    assert((m * v) * n == (m * n) * v) by (nonlinear_arith);
    accuracy::lemma_close_chain(c, (r * r) * n, (m * n) * v, (t * k) * v, 3, n + 2);
    lemma_pow2_adds(776, 1074);
    lemma_pow2_adds(925, 925);
    assert((t * k) * v == t * (pow2(925) * pow2(925))) by (nonlinear_arith)
        requires
            pow2(925) * pow2(925) == k * v,
    ;
    r
}

proof fn lemma_sum_bounds(a: nat, t: nat, n: nat)
    requires
        accuracy::close(parts(), a, t * pow2(776), n),
        1 <= t <= n * pow2(544),
        n <= 0x1_0000_0000,
    ensures
        pow2(776) <= 2 * a,
        a < pow2(1400),
{
    let k = pow2(776);
    let x = t * k;
    lemma2_to64_rest();
    lemma2_to64();
    lemma_pow2_adds(544, 776);
    lemma_pow2_adds(33, 1320);
    lemma_pow2_adds(1, 1353);
    lemma_pow2_pos(1353);
    rounding::lemma_pow2_le(1354, 1400);
    lemma_pow2_pos(1320);
    lemma_pow2_pos(776);
    assert(k <= x && x <= 0x1_0000_0000 * pow2(1320)) by (nonlinear_arith)
        requires
            x == t * k,
            1 <= t <= n * pow2(544),
            n <= 0x1_0000_0000,
            pow2(1320) == pow2(544) * k,
            k > 0,
    {
        assert(t * k <= (n * pow2(544)) * k);
        assert((n * pow2(544)) * k == n * pow2(1320));
        assert(n * pow2(1320) <= 0x1_0000_0000 * pow2(1320));
    }
    assert(a <= 2 * x && x <= 2 * a) by (nonlinear_arith)
        requires
            a * (parts() - n) <= x * parts(),
            x * (parts() - n) <= a * parts(),
            parts() == 0x20_0000_0000_0000,
            n <= 0x1_0000_0000,
    ;
}

/// The root mean square of samples is that of their exact squares, up to one part in `2^20`
/// of its square and a quantum: the squares of the numbers a quantum below it and above it,
/// times the number of samples, have the sum of the squares between them.
pub proof fn lemma_rms(s: Seq<Binary32>)
    requires
        all_moderate(s),
        1 <= s.len() <= 0x1_0000_0000,
    ensures
        ({
            let r = signal::rms(s);
            let q = fidelity::size(r);
            let n = s.len();
            let t = total_square(s);
            &&& r.finite()
            &&& fidelity::value(r) == q
            &&& q >= 1 ==> (((q - 1) * (q - 1)) * n) * 0xf_ffff <= t * 0x10_0000
            &&& t * 0xf_ffff <= (((q + 1) * (q + 1)) * n) * 0x10_0000
            &&& t == 0 ==> q == 0
        }),
{
    let n = s.len();
    let t = total_square(s);
    let z = pow2(925);
    let x = signal::sum_of_squares(s).over(Binary64::of_integer(n)).root();
    if t > 0 {
        let r = lemma_wide_rms(s);
        lemma_wide_root_bound(r, t, n);
        lemma_narrow(x);
        let q = fidelity::size(x.narrowed());
        lemma_narrow_error(q, r, z);
        lemma_rms_bounds(q, r, z, n, t);
    } else {
        lemma_rms_of_silence(s);
        let q = fidelity::size(signal::rms(s));
        assert(((q + 1) * (q + 1)) * n >= 0) by (nonlinear_arith)
            requires
                q >= 0,
                n >= 0,
        ;
    }
}

proof fn lemma_wide_root_bound(r: nat, t: nat, n: nat)
    requires
        accuracy::close(parts(), (r * r) * n, t * (pow2(925) * pow2(925)), n + 5),
        t <= n * pow2(544),
        1 <= n <= 0x1_0000_0000,
    ensures
        r < pow2(925) * pow2(276),
{
    let z = pow2(925);
    let b = pow2(273);
    lemma2_to64();
    lemma_pow2_pos(925);
    lemma_pow2_pos(273);
    lemma_pow2_adds(273, 273);
    lemma_pow2_adds(2, 544);
    rounding::lemma_pow2_le(273, 276);
    let y = t * (z * z);
    let x = (r * r) * n;
    assert(x <= 2 * y) by (nonlinear_arith)
        requires
            x * (parts() - (n + 5)) <= y * parts(),
            parts() == 0x20_0000_0000_0000,
            n <= 0x1_0000_0000,
    ;
    assert(r < b * z) by (nonlinear_arith)
        requires
            x == (r * r) * n,
            y == t * (z * z),
            x <= 2 * y,
            t <= n * pow2(544),
            b * b == 4 * pow2(544),
            n >= 1,
            z > 0,
            b > 0,
            pow2(544) >= 0,
    {
        assert(y <= (n * pow2(544)) * (z * z));
        assert((n * pow2(544)) * (z * z) == n * (pow2(544) * (z * z)));
        assert((r * r) * n <= n * (2 * (pow2(544) * (z * z))));
        let p = r * r;
        let q = 2 * (pow2(544) * (z * z));
        if p > q {
            assert(p * n > q * n);
        }
        assert(p <= q);
        assert((b * z) * (b * z) == (b * b) * (z * z));
        assert((b * b) * (z * z) == 2 * q);
        if r >= b * z {
            assert(r * r >= (b * z) * (b * z));
            assert((b * z) * (b * z) > 0);
        }
    }
    assert(b * z <= z * pow2(276)) by (nonlinear_arith)
        requires
            b <= pow2(276),
            z > 0,
    ;
}

/// Narrowing a number that is not too large.
proof fn lemma_narrow(x: Binary64)
    requires
        plain(x),
        size(x) < pow2(925) * pow2(276),
    ensures
        ({
            let y = x.narrowed();
            let q = fidelity::size(y);
            &&& y.finite()
            &&& fidelity::value(y) == q
            &&& rounding::distance((q * pow2(925)) as int, size(x) as int) * 0x100_0000 <= size(x)
                + pow2(925) * 0x80_0000
            &&& size(x) == 0 ==> q == 0
        }),
{
    reveal(size);
    reveal(plain);
    reveal(fidelity::size);
    reveal(fidelity::value);
    let f = Format::single();
    let g = Format::double();
    let a = size(x);
    let z = pow2(925);
    let u = pow2(149);
    accuracy::lemma_powers();
    lemma_wide_powers();
    accuracy::lemma_double_operations(x, x, 0);
    lemma_pow2_adds(925, 149);
    lemma_pow2_pos(925);
    assert((a * u) * z == a * pow2(1074)) by (nonlinear_arith)
        requires
            pow2(1074) == z * u,
    ;
    rounding::lemma_round_ratio_ratio(24, a * u, pow2(1074), a, z);
    accuracy::lemma_rounded_near(f, false, a, z);
    let y = x.narrowed();
    numbers::lemma_patterns(y, y);
    if a == 0 {
        signal::lemma_round_of_nothing(z);
        arith::lemma_level_orders_values(f, f.zero(false), f.zero(false));
    }
}

proof fn lemma_narrow_error(q: nat, r: nat, z: nat)
    requires
        rounding::distance((q * z) as int, r as int) * 0x100_0000 <= r + z * 0x80_0000,
        z > 0,
    ensures
        q >= 1 ==> ((q - 1) * z) * 0x100_0000 <= r * 0x100_0001,
        r * 0xff_ffff <= ((q + 1) * z) * 0x100_0000,
{
    assert((q - 1) * z == q * z - z) by (nonlinear_arith);
    assert((q + 1) * z == q * z + z) by (nonlinear_arith);
}

proof fn lemma_rms_bounds(q: nat, r: nat, z: nat, n: nat, t: nat)
    requires
        accuracy::close(parts(), (r * r) * n, t * (z * z), n + 5),
        q >= 1 ==> ((q - 1) * z) * 0x100_0000 <= r * 0x100_0001,
        r * 0xff_ffff <= ((q + 1) * z) * 0x100_0000,
        1 <= n <= 0x1_0000_0000,
        z > 0,
    ensures
        q >= 1 ==> (((q - 1) * (q - 1)) * n) * 0xf_ffff <= t * 0x10_0000,
        t * 0xf_ffff <= (((q + 1) * (q + 1)) * n) * 0x10_0000,
{
    let c = parts();
    let k = n + 5;
    let zz = z * z;
    let rn = (r * r) * n;
    let p = 0x100_0000int;
    assert(zz > 0) by (nonlinear_arith)
        requires
            zz == z * z,
            z > 0,
    ;
    if q >= 1 {
        let a = q - 1;
        let x = (a * a) * n;
        assert((x * zz) * (p * p) <= rn * ((p + 1) * (p + 1))) by (nonlinear_arith)
            requires
                (a * z) * p <= r * (p + 1),
                a >= 0,
                z > 0,
                p > 0,
                x == (a * a) * n,
                zz == z * z,
                rn == (r * r) * n,
                n >= 0,
                r >= 0,
        {
            let l = (a * z) * p;
            let m = r * (p + 1);
            assert(l >= 0);
            assert(l * l <= m * m);
            assert(l * l == ((a * a) * zz) * (p * p));
            assert(m * m == (r * r) * ((p + 1) * (p + 1)));
            assert((l * l) * n <= (m * m) * n);
            assert((((a * a) * zz) * (p * p)) * n == (x * zz) * (p * p));
            assert(((r * r) * ((p + 1) * (p + 1))) * n == rn * ((p + 1) * (p + 1)));
        }
        assert(x * 0xf_ffff <= t * 0x10_0000) by (nonlinear_arith)
            requires
                (x * zz) * (p * p) <= rn * ((p + 1) * (p + 1)),
                rn * (c - k) <= (t * zz) * c,
                c == 0x20_0000_0000_0000,
                k <= 0x1_0000_0005,
                p == 0x100_0000,
                zz > 0,
                x >= 0,
                t >= 0,
                rn >= 0,
        {
            assert(rn * (c - 0x1_0000_0005) <= (t * zz) * c);
            let y = x * zz;
            let w = t * zz;
            assert(y * 0x1_0000_0000_0000 <= rn * 0x1_0000_0200_0001);
            assert(y * 0xf_ffff <= w * 0x10_0000);
            assert((x * 0xf_ffff) * zz <= (t * 0x10_0000) * zz);
            if x * 0xf_ffff > t * 0x10_0000 {
                assert((x * 0xf_ffff) * zz > (t * 0x10_0000) * zz);
            }
        }
    }
    let b = q + 1;
    let x = (b * b) * n;
    assert(rn * ((p - 1) * (p - 1)) <= (x * zz) * (p * p)) by (nonlinear_arith)
        requires
            r * (p - 1) <= (b * z) * p,
            b >= 0,
            z > 0,
            p > 1,
            x == (b * b) * n,
            zz == z * z,
            rn == (r * r) * n,
            n >= 0,
            r >= 0,
    {
        let l = (b * z) * p;
        let m = r * (p - 1);
        assert(m >= 0);
        assert(m * m <= l * l);
        assert(l * l == ((b * b) * zz) * (p * p));
        assert(m * m == (r * r) * ((p - 1) * (p - 1)));
        assert((m * m) * n <= (l * l) * n);
        assert((((b * b) * zz) * (p * p)) * n == (x * zz) * (p * p));
        assert(((r * r) * ((p - 1) * (p - 1))) * n == rn * ((p - 1) * (p - 1)));
    }
    assert(t * 0xf_ffff <= x * 0x10_0000) by (nonlinear_arith)
        requires
            rn * ((p - 1) * (p - 1)) <= (x * zz) * (p * p),
            (t * zz) * (c - k) <= rn * c,
            c == 0x20_0000_0000_0000,
            k <= 0x1_0000_0005,
            p == 0x100_0000,
            zz > 0,
            x >= 0,
            t >= 0,
            rn >= 0,
    {
        let y = x * zz;
        let w = t * zz;
        assert(w * (c - 0x1_0000_0005) <= w * (c - k));
        assert(rn * 0xffff_fe00_0001 <= y * 0x1_0000_0000_0000);
        assert(w * 0xf_ffff <= y * 0x10_0000);
        assert((t * 0xf_ffff) * zz <= (x * 0x10_0000) * zz);
        if t * 0xf_ffff > x * 0x10_0000 {
            assert((t * 0xf_ffff) * zz > (x * 0x10_0000) * zz);
        }
    }
}

/// Samples that are all zero have no level.
proof fn lemma_rms_of_silence(s: Seq<Binary32>)
    requires
        all_moderate(s),
        1 <= s.len() <= 0x1_0000_0000,
        total_square(s) == 0,
    ensures
        signal::rms(s).finite(),
        fidelity::size(signal::rms(s)) == 0,
        fidelity::value(signal::rms(s)) == 0,
{
    let g = Format::double();
    let n = s.len();
    let sum = signal::sum_of_squares(s);
    lemma_squares(s);
    lemma_wide_powers();
    assert(size(sum) == 0) by (nonlinear_arith)
        requires
            size(sum) * (parts() - n) <= (total_square(s) * pow2(776)) * parts(),
            total_square(s) == 0,
            parts() == 0x20_0000_0000_0000,
            n <= 0x1_0000_0000,
    ;
    reveal(size);
    reveal(plain);
    let y = Binary64::of_integer(n);
    accuracy::lemma_double_operations(sum, y, n);
    arith::lemma_of_integer(g, n, n);
    arith::lemma_infinity_bounds(g);
    arith::lemma_level_orders_values(g, sum.datum(), y.datum());
    let mean = sum.over(y);
    lemma_wide_nothing(g.size(y.datum()));
    assert(0 * pow2(1074) == 0);
    assert(mean.datum() == g.zero(false));
    accuracy::lemma_double_operations(mean, mean, n);
    let root = mean.root();
    assert(root.datum() == g.zero(false));
    arith::lemma_level_orders_values(g, root.datum(), root.datum());
    assert(plain(root) && size(root) == 0);
    lemma_pow2_pos(925);
    lemma_pow2_pos(276);
    assert(0 < pow2(925) * pow2(276)) by (nonlinear_arith)
        requires
            pow2(925) > 0,
            pow2(276) > 0,
    ;
    lemma_narrow(root);
}

proof fn lemma_wide_nothing(den: nat)
    requires
        den > 0,
    ensures
        rounding::round_ratio(53, 0, den) == 0,
{
    rounding::lemma_round_ratio_ratio(53, 0, den, 0, 1);
    rounding::lemma_round_of_quanta(53, 0);
    lemma2_to64();
    lemma2_to64_rest();
}

/// A chunk without samples has no level.
pub proof fn lemma_level_of_nothing(s: Seq<Binary32>)
    requires
        s.len() == 0,
    ensures
        signal::rms(s).bits == 0,
        signal::peak(s).bits == 0,
{
}

/// The share of accepted speech is the number of what was accepted by the number of what
/// has ended, up to three parts in `2^53`; and all, where nothing has ended.
pub proof fn lemma_share(s: CoordinatorModel)
    requires
        s.accepted + s.cancelled <= u64::MAX,
    ensures
        ({
            let r = s.acceptance_rate();
            let t = s.accepted + s.cancelled;
            &&& plain(r)
            &&& t == 0 ==> r == Binary64::of_integer(1)
            &&& t > 0 ==> accuracy::close(
                0x20_0000_0000_0000,
                size(r) * t,
                s.accepted * pow2(1074),
                3,
            )
        }),
{
    reveal(size);
    reveal(plain);
    let g = Format::double();
    let c = parts();
    let v = pow2(1074);
    let t = s.accepted + s.cancelled;
    let r = s.acceptance_rate();
    lemma_wide_powers();
    arith::lemma_infinity_bounds(g);
    arith::lemma_of_integer(g, 1, 1);
    accuracy::lemma_double_operations(r, r, 1);
    if t > 0 {
        let x = Binary64::of_integer(s.accepted);
        let y = Binary64::of_integer(t);
        arith::lemma_of_integer(g, s.accepted, t);
        arith::lemma_of_integer(g, t, t);
        accuracy::lemma_double_operations(x, y, s.accepted);
        accuracy::lemma_double_operations(x, y, t);
        let (a, b) = (size(x), size(y));
        arith::lemma_level_orders_values(g, x.datum(), y.datum());
        if s.accepted == 0 {
            lemma_wide_nothing(b);
            assert(0 * v == 0);
            assert(r.datum() == g.zero(false));
            arith::lemma_level_orders_values(g, r.datum(), r.datum());
            assert(0 * t == 0);
        } else {
            let n = s.accepted;
            lemma_wide_integer(n);
            lemma_wide_integer(t);
            lemma_share_bounds(a, b, v);
            accuracy::lemma_rounded_near(g, false, a * v, b);
            let q = size(r);
            accuracy::lemma_close_scaled(c, b, t * v, 1, q);
            accuracy::lemma_close_scaled(c, a, n * v, 1, v);
            assert(b * q == q * b && (t * v) * q == (q * t) * v) by (nonlinear_arith);
            accuracy::lemma_close_chain(c, (q * t) * v, q * b, a * v, 1, 1);
            accuracy::lemma_close_chain(c, (q * t) * v, a * v, (n * v) * v, 2, 1);
            accuracy::lemma_close_unscaled(c, q * t, n * v, 3, v);
        }
    }
}

/// An integer in the wider format, and its bounds.
proof fn lemma_wide_integer(n: nat)
    requires
        1 <= n <= u64::MAX,
    ensures
        ({
            let a = size(Binary64::of_integer(n));
            &&& accuracy::close(parts(), a, n * pow2(1074), 1)
            &&& 2 * a >= pow2(1074)
            &&& a <= pow2(1139)
        }),
{
    reveal(size);
    let g = Format::double();
    let v = pow2(1074);
    let c = parts();
    let y = Binary64::of_integer(n);
    lemma_wide_powers();
    accuracy::lemma_double_operations(y, y, n);
    lemma2_to64();
    lemma_pow2_adds(64, 1074);
    lemma_pow2_adds(1, 1138);
    rounding::lemma_pow2_le(1139, 2097);
    lemma_pow2_pos(1138);
    assert(v <= n * v && n * v <= pow2(1138)) by (nonlinear_arith)
        requires
            1 <= n <= pow2(64),
            pow2(1138) == pow2(64) * v,
            v > 0,
    ;
    assert(n * v < 1 * pow2(2097));
    accuracy::lemma_rounded_near(g, false, n * v, 1);
    let a = size(y);
    let x = n * v;
    assert(2 * a >= x && a <= 2 * x) by (nonlinear_arith)
        requires
            a * (c - 1) <= x * c,
            x * (c - 1) <= a * c,
            c == 0x20_0000_0000_0000,
    ;
}

proof fn lemma_share_bounds(a: nat, b: nat, v: nat)
    requires
        v == pow2(1074),
        2 * a >= v,
        a <= pow2(1139),
        2 * b >= v,
        b <= pow2(1139),
    ensures
        b * pow2(52) <= a * v < b * pow2(2097),
{
    lemma2_to64_rest();
    lemma2_to64();
    lemma_pow2_pos(1074);
    lemma_pow2_pos(2097);
    lemma_pow2_adds(1139, 52);
    lemma_pow2_adds(1, 1191);
    lemma_pow2_adds(1074, 1074);
    rounding::lemma_pow2_le(1192, 2148);
    lemma_pow2_adds(1, 1139);
    rounding::lemma_pow2_le(1140, 2096);
    lemma_pow2_adds(1, 2096);
    lemma_pow2_pos(2096);
    lemma_pow2_pos(52);
    assert(b * pow2(52) <= a * v < b * pow2(2097)) by (nonlinear_arith)
        requires
            2 * a >= v,
            a <= pow2(1139),
            2 * b >= v,
            b <= pow2(1139),
            2 * (pow2(1139) * pow2(52)) <= v * v,
            2 * pow2(1139) < pow2(2097),
            v > 0,
            pow2(52) > 0,
    {
        assert(b * pow2(52) <= pow2(1139) * pow2(52));
        assert((2 * a) * v >= v * v);
        assert(a * v <= pow2(1139) * v);
        assert((2 * pow2(1139)) * v < pow2(2097) * v);
        assert(pow2(2097) * v <= pow2(2097) * (2 * b));
    }
}

} // verus!
