//! What is computed from samples: their length in time, their level, other rates and one
//! channel in place of many.

use vstd::arithmetic::div_mod::*;
use vstd::arithmetic::power2::*;
use vstd::prelude::*;

use crate::arith;
use crate::arith::Format;
use crate::numbers;
use crate::numbers::{Binary32, Binary64};
use crate::rounding;

verus! {

/// The time that `samples` samples take at `rate` a second, in milliseconds.
#[verifier::opaque]
pub open spec fn milliseconds(samples: nat, rate: nat) -> Binary32 {
    Binary32::of_integer(samples).over(Binary32::of_integer(rate)).times(Binary32::of_integer(1000))
}

/// Whole milliseconds, as far as 32 bits tell them.
pub open spec fn whole_ms(samples: nat, rate: nat) -> nat {
    milliseconds(samples, rate).integer_part(u32::MAX as nat)
}

/// Whole milliseconds, as far as 64 bits tell them.
pub open spec fn timestamp_ms(samples: nat, rate: nat) -> nat {
    milliseconds(samples, rate).integer_part(u64::MAX as nat)
}

fn duration(samples: usize, rate: u32) -> (r: Binary32)
    ensures
        r == milliseconds(samples as nat, rate as nat),
{
    proof {
        reveal(milliseconds);
    }
    Binary32::from_integer(samples as u64).divide(Binary32::from_integer(rate as u64)).multiply(
        Binary32::from_integer(1000),
    )
}

pub fn duration_ms(samples: usize, rate: u32) -> (ms: u32)
    ensures
        ms == whole_ms(samples as nat, rate as nat),
{
    duration(samples, rate).truncate(u32::MAX as u64) as u32
}

pub fn position_ms(samples: usize, rate: u32) -> (ms: u64)
    ensures
        ms == timestamp_ms(samples as nat, rate as nat),
{
    duration(samples, rate).truncate(u64::MAX)
}

/// The two ways to tell a time differ only in how far they tell it.
pub proof fn lemma_timestamp_fits(samples: nat, rate: nat)
    ensures
        timestamp_ms(samples, rate) <= u64::MAX,
        whole_ms(samples, rate) == if timestamp_ms(samples, rate) < u32::MAX {
            timestamp_ms(samples, rate)
        } else {
            u32::MAX as nat
        },
{
}

/// No samples take no time.
pub proof fn lemma_time_of_nothing(rate: nat)
    requires
        0 < rate <= u32::MAX,
    ensures
        timestamp_ms(0, rate) == 0,
        whole_ms(0, rate) == 0,
{
    let f = Format::single();
    let u = pow2(149);
    let a = Binary32::of_integer(0).datum();
    let b = Binary32::of_integer(rate).datum();
    let k = Binary32::of_integer(1000).datum();
    let q = Binary32::ratio(0, rate).datum();
    reveal(milliseconds);
    numbers::lemma_single_patterns();
    numbers::lemma_integers_ordered(0, rate);
    numbers::lemma_integers_ordered(1000, 1000);
    numbers::lemma_small_integer(0);
    numbers::lemma_packed(f.quotient(a, b));
    arith::lemma_level_orders_values(f, a, b);
    lemma_round_of_nothing(f.size(b));
    assert(0 * u == 0);
    assert(q == f.zero(false));
    arith::lemma_product_with_zero(f, k, q);
    arith::lemma_level_orders_values(f, q, q);
    lemma_pow2_pos(149);
    lemma_round_of_nothing(u);
    assert(0 * f.size(k) == 0);
    assert(f.product(q, k) == f.zero(false));
    numbers::lemma_packed(f.product(q, k));
    arith::lemma_zero_has_no_integer_part(f, u32::MAX as nat);
    arith::lemma_zero_has_no_integer_part(f, u64::MAX as nat);
}

/// More samples never take less time.
pub proof fn lemma_time_monotone(m: nat, n: nat, rate: nat)
    requires
        m <= n <= u64::MAX,
        rate <= u32::MAX,
    ensures
        whole_ms(m, rate) <= whole_ms(n, rate),
        timestamp_ms(m, rate) <= timestamp_ms(n, rate),
{
    reveal(milliseconds);
    let f = Format::single();
    numbers::lemma_single_patterns();
    numbers::lemma_integers_ordered(m, n);
    numbers::lemma_integers_ordered(rate, rate);
    numbers::lemma_integers_ordered(1000, 1000);
    let a = Binary32::of_integer(m).datum();
    let b = Binary32::of_integer(n).datum();
    let d = Binary32::of_integer(rate).datum();
    let k = Binary32::of_integer(1000).datum();
    let qa = f.quotient(a, d);
    let qb = f.quotient(b, d);
    numbers::lemma_results_fit(a, d, 0);
    numbers::lemma_results_fit(b, d, 0);
    numbers::lemma_packed(qa);
    numbers::lemma_packed(qb);
    numbers::lemma_results_fit(qa, k, 0);
    numbers::lemma_results_fit(qb, k, 0);
    numbers::lemma_packed(f.product(qa, k));
    numbers::lemma_packed(f.product(qb, k));
    if rate == 0 && m == 0 {
        // Nothing in no time is not a number, and counts as no time.
        assert(f.is_nan(f.product(qa, k)));
    } else {
        if rate > 0 {
            arith::lemma_quotient_monotone(f, a, b, d);
        }
        arith::lemma_product_monotone(f, qa, qb, k);
        arith::lemma_integer_part_monotone(
            f,
            f.product(qa, k),
            f.product(qb, k),
            u32::MAX as nat,
        );
        arith::lemma_integer_part_monotone(
            f,
            f.product(qa, k),
            f.product(qb, k),
            u64::MAX as nat,
        );
    }
}

/// For a chunk of any usual length, the time that is told is off by no more than a
/// millisecond.
pub proof fn lemma_time_is_close(samples: nat, rate: nat)
    requires
        samples < 0x100_0000,
        0 < rate < 0x100_0000,
        samples * 1000 < rate * 0x3f_ffff,
    ensures
        ({
            let exact = samples * 1000 / rate;
            &&& exact <= whole_ms(samples, rate) + 1
            &&& whole_ms(samples, rate) <= exact + 1
            &&& timestamp_ms(samples, rate) == whole_ms(samples, rate)
        }),
{
    let f = Format::single();
    let u = pow2(149);
    let e = samples * 1000 / rate;
    let k = Binary32::of_integer(1000).datum();
    let q = Binary32::ratio(samples, rate).datum();
    reveal(milliseconds);
    numbers::lemma_single_patterns();
    numbers::lemma_small_integer(samples);
    numbers::lemma_small_integer(rate);
    numbers::lemma_small_integer(1000);
    numbers::lemma_integers_ordered(rate, rate);
    numbers::lemma_packed(f.product(q, k));
    lemma2_to64();
    lemma_pow2_pos(149);
    lemma_fundamental_div_mod((samples * 1000) as int, rate as int);
    lemma_mod_pos_bound((samples * 1000) as int, rate as int);
    if samples == 0 {
        let a = Binary32::of_integer(0).datum();
        let b = Binary32::of_integer(rate).datum();
        numbers::lemma_integers_ordered(0, 0);
        numbers::lemma_packed(f.quotient(a, b));
        arith::lemma_level_orders_values(f, b, b);
        lemma_round_of_nothing(f.size(b));
        assert(0 * u * u == 0) by (nonlinear_arith);
        assert(q == f.zero(false));
        lemma_round_of_nothing(u);
        assert(0 * f.size(k) == 0);
        arith::lemma_level_orders_values(f, q, q);
        assert(f.product(q, k) == f.zero(false));
        arith::lemma_zero_has_no_integer_part(f, u32::MAX as nat);
        arith::lemma_zero_has_no_integer_part(f, u64::MAX as nat);
        lemma_basic_div(0, rate as int);
    } else {
        let r = lemma_ratio_near(samples, rate);
        lemma_pow2_adds(10, 174);
        rounding::lemma_pow2_le(23, 124);
        rounding::lemma_pow2_le(184, 276);
        let num = r * (1000 * u);
        assert(num * 1 == (r * 1000) * u) by (nonlinear_arith)
            requires
                num == r * (1000 * u),
        ;
        rounding::lemma_round_ratio_ratio(24, num, u, r * 1000, 1);
        assert(f.product(q, k) == f.rounded(false, r * 1000, 1));
        assert(1 * pow2(23) <= r * 1000 < 1 * pow2(276)) by (nonlinear_arith)
            requires
                pow2(124) <= r <= pow2(174),
                pow2(23) <= pow2(124),
                pow2(10) == 1024,
                pow2(10) * pow2(174) <= pow2(276),
                pow2(124) > 0,
        ;
        numbers::lemma_rounded_near(r * 1000, 1);
        let s = f.size(f.product(q, k));
        let w = s / u;
        lemma_fundamental_div_mod(s as int, u as int);
        lemma_mod_pos_bound(s as int, u as int);
        assert(w * u <= s < (w + 1) * u) by (nonlinear_arith)
            requires
                s == u * w + s % u,
                0 <= s % u < u,
        ;
        assert(e * rate <= samples * 1000 < (e + 1) * rate) by (nonlinear_arith)
            requires
                samples * 1000 == rate * e + (samples * 1000) % rate,
                0 <= (samples * 1000) % rate < rate,
        ;
        lemma_close(samples, rate, u, r, s, w, e);
    }
}

/// Two roundings of a number below `2^22` do not move it as far as the integer after the
/// next one.
proof fn lemma_close(samples: nat, rate: nat, u: nat, r: nat, s: nat, w: nat, e: nat)
    requires
        0 < rate,
        u > 0,
        samples * 1000 < rate * 0x3f_ffff,
        e * rate <= samples * 1000 < (e + 1) * rate,
        (samples * u) * 0xff_ffff <= (r * rate) * 0x100_0000 <= (samples * u) * 0x100_0001,
        (r * 1000) * 0xff_ffff <= s * 0x100_0000 <= (r * 1000) * 0x100_0001,
        w * u <= s < (w + 1) * u,
    ensures
        w <= e + 1,
        e <= w + 1,
        e < 0x40_0000,
{
    assert(e < 0x3f_ffff) by (nonlinear_arith)
        requires
            e * rate < rate * 0x3f_ffff,
            rate > 0,
    ;
    // x is the exact number of milliseconds, times rate and quanta.
    let x = (samples * 1000) * u;
    let y = s * rate;
    assert((y * 0x100_0000) * 0x100_0000 <= (x * 0x100_0001) * 0x100_0001
        && (y * 0x100_0000) * 0x100_0000 >= (x * 0xff_ffff) * 0xff_ffff) by (nonlinear_arith)
        requires
            x == (samples * 1000) * u,
            y == s * rate,
            (samples * u) * 0xff_ffff <= (r * rate) * 0x100_0000 <= (samples * u) * 0x100_0001,
            (r * 1000) * 0xff_ffff <= s * 0x100_0000 <= (r * 1000) * 0x100_0001,
            rate > 0,
    {
        let t = r * rate;
        assert((s * 0x100_0000) * rate <= ((r * 1000) * 0x100_0001) * rate);
        assert((s * 0x100_0000) * rate >= ((r * 1000) * 0xff_ffff) * rate);
        assert((s * 0x100_0000) * rate == y * 0x100_0000);
        assert(((r * 1000) * 0x100_0001) * rate == (t * 1000) * 0x100_0001);
        assert(((r * 1000) * 0xff_ffff) * rate == (t * 1000) * 0xff_ffff);
        assert(x == (samples * u) * 1000);
    }
    let v = rate * u;
    assert(v > 0) by (nonlinear_arith)
        requires
            v == rate * u,
            rate > 0,
            u > 0,
    ;
    assert(e * v <= x < (e + 1) * v) by (nonlinear_arith)
        requires
            v == rate * u,
            x == (samples * 1000) * u,
            e * rate <= samples * 1000 < (e + 1) * rate,
            u > 0,
    {
        assert((e * rate) * u <= (samples * 1000) * u);
        assert((samples * 1000) * u < ((e + 1) * rate) * u);
        assert((e * rate) * u == e * (rate * u));
        assert(((e + 1) * rate) * u == (e + 1) * (rate * u));
    }
    assert(w * v <= y < (w + 1) * v) by (nonlinear_arith)
        requires
            v == rate * u,
            y == s * rate,
            w * u <= s < (w + 1) * u,
            rate > 0,
    {
        assert((w * u) * rate <= s * rate);
        assert(s * rate < ((w + 1) * u) * rate);
        assert((w * u) * rate == w * (rate * u));
        assert(((w + 1) * u) * rate == (w + 1) * (rate * u));
    }
    assert(w <= e + 1) by (nonlinear_arith)
        requires
            (y * 0x100_0000) * 0x100_0000 <= (x * 0x100_0001) * 0x100_0001,
            x < (e + 1) * v,
            w * v <= y,
            e < 0x3f_ffff,
            v > 0,
    {
        if w >= e + 2 {
            assert(w * v >= (e + 2) * v);
            assert((e + 2) * v == e * v + 2 * v);
            assert((e + 1) * v == e * v + v);
            assert(e * v < 0x3f_ffff * v);
        }
    }
    assert(e <= w + 1) by (nonlinear_arith)
        requires
            (y * 0x100_0000) * 0x100_0000 >= (x * 0xff_ffff) * 0xff_ffff,
            e * v <= x,
            y < (w + 1) * v,
            e < 0x3f_ffff,
            v > 0,
    {
        if e >= w + 2 {
            assert((w + 1) * v <= (e - 1) * v);
            assert((e - 1) * v == e * v - v);
            assert(e * v < 0x3f_ffff * v);
        }
    }
}

/// The squares of the samples, added up from the first on.
pub open spec fn sum_of_squares(s: Seq<Binary32>) -> Binary64
    decreases s.len(),
{
    if s.len() == 0 {
        Binary64 { bits: 0 }
    } else {
        let x = s.last().widened();
        sum_of_squares(s.drop_last()).plus(x.times(x))
    }
}

/// The largest magnitude among the samples; zero, if none is above zero.
pub open spec fn peak(s: Seq<Binary32>) -> Binary32
    decreases s.len(),
{
    if s.len() == 0 {
        Binary32 { bits: 0 }
    } else {
        let before = peak(s.drop_last());
        let a = s.last().absolute();
        if a.above(before) {
            a
        } else {
            before
        }
    }
}

/// The peak is a number that no sample exceeds in magnitude, and it is the magnitude of a
/// sample unless it is zero. Samples that are not numbers do not count.
pub proof fn lemma_peak(s: Seq<Binary32>)
    ensures
        !peak(s).nan(),
        peak(s).at_least(Binary32 { bits: 0 }),
        forall|i: int|
            0 <= i < s.len() && !(#[trigger] s[i]).nan() ==> peak(s).at_least(s[i].absolute()),
        peak(s) == (Binary32 { bits: 0 }) || exists|i: int|
            0 <= i < s.len() && peak(s) == (#[trigger] s[i]).absolute(),
    decreases s.len(),
{
    numbers::lemma_single_patterns();
    if s.len() > 0 {
        let t = s.drop_last();
        lemma_peak(t);
        let before = peak(t);
        let a = s.last().absolute();
        assert forall|i: int| 0 <= i < s.len() && !(#[trigger] s[i]).nan() implies peak(
            s,
        ).at_least(s[i].absolute()) by {
            if i < t.len() {
                assert(t[i] == s[i]);
            }
        }
        if a.above(before) {
            assert(peak(s) == s[s.len() - 1].absolute());
        } else if before != (Binary32 { bits: 0 }) {
            let i = choose|i: int| 0 <= i < t.len() && before == (#[trigger] t[i]).absolute();
            assert(s[i] == t[i]);
        }
    }
}

/// The root of the mean square of the samples; zero, if there are none.
pub open spec fn rms(s: Seq<Binary32>) -> Binary32 {
    if s.len() == 0 {
        Binary32 { bits: 0 }
    } else {
        sum_of_squares(s).over(Binary64::of_integer(s.len())).root().narrowed()
    }
}

/// The level of a chunk: its `rms` and its `peak`.
pub fn level(s: &Vec<Binary32>) -> (r: (Binary32, Binary32))
    ensures
        r.0 == rms(s@),
        r.1 == peak(s@),
{
    if s.len() == 0 {
        return (Binary32 { bits: 0 }, Binary32 { bits: 0 });
    }
    let mut squares: Binary64 = Binary64 { bits: 0 };
    let mut top: Binary32 = Binary32 { bits: 0 };
    let mut i: usize = 0;
    assert(s@.take(0) =~= Seq::<Binary32>::empty());
    while i < s.len()
        invariant
            i <= s.len(),
            squares == sum_of_squares(s@.take(i as int)),
            top == peak(s@.take(i as int)),
        decreases s.len() - i,
    {
        proof {
            let next = s@.take(i + 1);
            assert(next.drop_last() =~= s@.take(i as int));
            assert(next.last() == s@[i as int]);
        }
        let x: Binary64 = s[i].widen();
        squares = squares.add(x.multiply(x));
        let a: Binary32 = s[i].abs();
        if a.gt(top) {
            top = a;
        }
        i = i + 1;
    }
    assert(s@.take(s.len() as int) =~= s@);
    let mean: Binary64 = squares.divide(Binary64::from_integer(s.len() as u64));
    (mean.sqrt().narrow(), top)
}

/// The samples added up from the first on.
pub open spec fn sum(s: Seq<Binary32>) -> Binary32
    decreases s.len(),
{
    if s.len() == 0 {
        // Zero with the minus sign: added to anything, it changes nothing.
        Binary32 { bits: 0x8000_0000 }
    } else {
        sum(s.drop_last()).plus(s.last())
    }
}

/// The samples of the frame `i`, of interleaved `channels`. The last frame may lack some.
pub open spec fn frame(s: Seq<Binary32>, channels: nat, i: int) -> Seq<Binary32> {
    let end = (i + 1) * channels;
    s.subrange(i * channels, if end < s.len() { end } else { s.len() as int })
}

/// How many frames there are.
pub open spec fn frames(len: nat, channels: nat) -> nat {
    ((len + channels - 1) / channels as int) as nat
}

/// One channel in place of many: the mean of each frame.
pub open spec fn downmix(s: Seq<Binary32>, channels: nat) -> Seq<Binary32> {
    Seq::new(
        frames(s.len(), channels),
        |i: int| sum(frame(s, channels, i)).over(Binary32::of_integer(channels)),
    )
}

fn sum_range(s: &Vec<Binary32>, from: usize, to: usize) -> (r: Binary32)
    requires
        from <= to <= s.len(),
    ensures
        r == sum(s@.subrange(from as int, to as int)),
{
    let mut total: Binary32 = Binary32 { bits: 0x8000_0000 };
    let mut i: usize = from;
    while i < to
        invariant
            from <= i <= to <= s.len(),
            total == sum(s@.subrange(from as int, i as int)),
        decreases to - i,
    {
        proof {
            let next = s@.subrange(from as int, i + 1);
            assert(next.drop_last() =~= s@.subrange(from as int, i as int));
            assert(next.last() == s@[i as int]);
        }
        total = total.add(s[i]);
        i = i + 1;
    }
    total
}

/// Mixes interleaved channels down to one.
pub fn mix_down(s: &Vec<Binary32>, channels: u32) -> (r: Vec<Binary32>)
    requires
        channels > 0,
    ensures
        r@ == downmix(s@, channels as nat),
{
    let divisor: Binary32 = Binary32::from_integer(channels as u64);
    let step: usize = channels as usize;
    let mut r: Vec<Binary32> = Vec::new();
    let mut at: usize = 0;
    let ghost n = s@.len();
    let ghost c = channels as nat;
    while at < s.len()
        invariant
            n == s@.len(),
            c == channels == step,
            c > 0,
            divisor == Binary32::of_integer(c),
            at <= n,
            at == r@.len() * c || (at == n && at < r@.len() * c < at + c),
            at < n ==> at == r@.len() * c,
            forall|i: int|
                0 <= i < r@.len() ==> #[trigger] r@[i] == sum(frame(s@, c, i)).over(
                    Binary32::of_integer(c),
                ),
        decreases n - at,
    {
        let end: usize = if s.len() - at > step { at + step } else { s.len() };
        let mean: Binary32 = sum_range(s, at, end).divide(divisor);
        proof {
            let k = r@.len() as int;
            assert((k + 1) * c == k * c + c) by (nonlinear_arith);
            assert(frame(s@, c, k) =~= s@.subrange(at as int, end as int));
        }
        r.push(mean);
        at = end;
    }
    proof {
        let k = r@.len() as int;
        // ceil(n / c) == k
        if k == 0 {
            assert(k * c == 0) by (nonlinear_arith)
                requires
                    k == 0,
            ;
        }
        assert(n <= k * c < n + c);
        lemma_fundamental_div_mod_converse(
            n + c - 1,
            c as int,
            k,
            n + c - 1 - k * c,
        );
        assert(r@ =~= downmix(s@, c));
    }
    r
}

/// How many samples a chunk has at another rate.
pub open spec fn resampled_len(len: nat, from: nat, to: nat) -> nat {
    Binary32::of_integer(len).over(Binary32::ratio(from, to)).integer_part(usize::MAX as nat)
}

/// Where, among the samples of the one rate, the sample `i` of the other rate lies.
pub open spec fn source_position(i: nat, from: nat, to: nat) -> Binary32 {
    Binary32::of_integer(i).times(Binary32::ratio(from, to))
}

/// The last sample that is not behind that place.
pub open spec fn source_index(i: nat, from: nat, to: nat) -> nat {
    source_position(i, from, to).integer_part(usize::MAX as nat)
}

/// The sample `i` of the other rate, on the line between its two neighbours.
pub open spec fn interpolated(s: Seq<Binary32>, from: nat, to: nat, i: nat) -> Binary32 {
    let at = source_index(i, from, to) as int;
    let rest = source_position(i, from, to).minus(Binary32::of_integer(at as nat));
    if at + 1 < s.len() {
        s[at].times(Binary32::of_integer(1).minus(rest)).plus(s[at + 1].times(rest))
    } else {
        s[at]
    }
}

/// The samples at another rate.
pub open spec fn resampled(s: Seq<Binary32>, from: nat, to: nat) -> Seq<Binary32> {
    if from == to {
        s
    } else {
        Seq::new(resampled_len(s.len(), from, to), |i: int| interpolated(s, from, to, i as nat))
    }
}

/// Every sample of the other rate lies among those that there are, and there is memory
/// that can be asked for.
pub open spec fn resamples(len: nat, from: nat, to: nat) -> bool {
    from == to || {
        &&& 4 * resampled_len(len, from, to) <= isize::MAX
        &&& forall|i: nat|
            i < resampled_len(len, from, to) ==> #[trigger] source_index(i, from, to) < len
    }
}

/// Later samples lie no earlier.
pub proof fn lemma_source_index_monotone(i: nat, j: nat, from: nat, to: nat)
    requires
        i <= j <= u64::MAX,
        from <= u32::MAX,
        0 < to <= u32::MAX,
    ensures
        source_index(i, from, to) <= source_index(j, from, to),
{
    let f = Format::single();
    numbers::lemma_single_patterns();
    numbers::lemma_integers_ordered(i, j);
    numbers::lemma_integers_ordered(from, from);
    numbers::lemma_integers_ordered(to, to);
    let a = Binary32::of_integer(i).datum();
    let b = Binary32::of_integer(j).datum();
    let n = Binary32::of_integer(from).datum();
    let m = Binary32::of_integer(to).datum();
    arith::lemma_quotient_monotone(f, n, n, m);
    numbers::lemma_results_fit(n, m, 0);
    numbers::lemma_packed(f.quotient(n, m));
    let d = Binary32::ratio(from, to).datum();
    numbers::lemma_results_fit(a, d, 0);
    numbers::lemma_results_fit(b, d, 0);
    numbers::lemma_packed(f.product(a, d));
    numbers::lemma_packed(f.product(b, d));
    if f.is_infinite(d) {
        // Only the first sample could lie anywhere.
    } else if d.magnitude == 0 {
        arith::lemma_product_with_zero(f, a, d);
        arith::lemma_product_with_zero(f, b, d);
    } else {
        arith::lemma_product_monotone(f, a, b, d);
        arith::lemma_integer_part_monotone(
            f,
            f.product(a, d),
            f.product(b, d),
            usize::MAX as nat,
        );
    }
}

/// How far the quotient of two rates is off, in quanta.
proof fn lemma_ratio_near(from: nat, to: nat) -> (r: nat)
    requires
        0 < from < 0x100_0000,
        0 < to < 0x100_0000,
    ensures
        ({
            let d = Binary32::ratio(from, to).datum();
            &&& !d.negative
            &&& Format::single().is_finite(d)
            &&& r == Format::single().size(d)
        }),
        (r * to) * 0x100_0000 <= (from * pow2(149)) * 0x100_0001,
        (r * to) * 0x100_0000 >= (from * pow2(149)) * 0xff_ffff,
        pow2(124) <= r <= pow2(174),
{
    let f = Format::single();
    let u = pow2(149);
    numbers::lemma_single_patterns();
    numbers::lemma_small_integer(from);
    numbers::lemma_small_integer(to);
    numbers::lemma_integers_ordered(to, to);
    lemma2_to64();
    lemma_pow2_pos(149);
    lemma_pow2_adds(24, 149);
    lemma_pow2_adds(23, 125);
    lemma_pow2_adds(24, 124);
    lemma_pow2_adds(1, 148);
    lemma_pow2_adds(25, 149);
    let a = Binary32::of_integer(from).datum();
    let b = Binary32::of_integer(to).datum();
    let num = (from * u) * u;
    let den = to * u;
    assert(num * to == (from * u) * den) by (nonlinear_arith)
        requires
            num == (from * u) * u,
            den == to * u,
    ;
    assert(den > 0) by (nonlinear_arith)
        requires
            den == to * u,
            to > 0,
            u > 0,
    ;
    rounding::lemma_round_ratio_ratio(24, num, den, from * u, to);
    assert(f.quotient(a, b) == f.rounded(false, from * u, to));
    rounding::lemma_pow2_le(47, 149);
    rounding::lemma_pow2_le(173, 276);
    lemma_pow2_adds(23, 24);
    assert(to * pow2(23) <= from * u < to * pow2(276)) by (nonlinear_arith)
        requires
            0 < from < 0x100_0000,
            0 < to < 0x100_0000,
            pow2(24) == 0x100_0000,
            pow2(23) * pow2(24) <= u,
            pow2(24) * u <= pow2(276),
            u > 0,
            pow2(23) > 0,
    ;
    numbers::lemma_rounded_near(from * u, to);
    let d = f.rounded(false, from * u, to);
    numbers::lemma_packed(d);
    let r = f.size(d);
    assert(r >= pow2(124)) by (nonlinear_arith)
        requires
            (r * to) * 0x100_0000 >= (from * u) * 0xff_ffff,
            u == 2 * pow2(148),
            pow2(148) == 0x100_0000 * pow2(124),
            0 < to < 0x100_0000,
            from > 0,
            pow2(124) > 0,
    {
        assert(from * u >= u);
        assert((r * to) * 0x100_0000 >= u * 0xff_ffff);
        assert((r * to) * 0x100_0000 >= pow2(148) * 0x100_0000);
        assert(r * to >= 0x100_0000 * pow2(124));
        if r < pow2(124) {
            assert(r * to < 0x100_0000 * pow2(124));
        }
    }
    assert(r <= pow2(174)) by (nonlinear_arith)
        requires
            (r * to) * 0x100_0000 <= (from * u) * 0x100_0001,
            pow2(174) == pow2(25) * u,
            pow2(25) == 0x200_0000,
            0 < from < 0x100_0000,
            to > 0,
            u > 0,
    {
        assert(r <= r * to);
        assert(from * u <= 0x100_0000 * u);
        assert(r * 0x100_0000 <= (0x100_0000 * u) * 0x100_0001);
    }
    r
}

/// No sample of the other rate lies behind the last one that there is, where there are up
/// to `2^21` of them: at 16000 samples a second, those of two minutes. A longer chunk may
/// be cut short by rounding.
pub proof fn lemma_resamples(len: nat, from: nat, to: nat)
    requires
        len < 0x100_0000,
        0 < from < 0x100_0000,
        0 < to < 0x100_0000,
        len * to <= from * 0x20_0000,
    ensures
        resamples(len, from, to),
        resampled_len(len, from, to) <= 0x40_0000,
{
    let f = Format::single();
    let u = pow2(149);
    let r = lemma_ratio_near(from, to);
    let d = Binary32::ratio(from, to).datum();
    let l = Binary32::of_integer(len).datum();
    let n = resampled_len(len, from, to);
    numbers::lemma_single_patterns();
    numbers::lemma_small_integer(len);
    numbers::lemma_integers_ordered(len, len);
    arith::lemma_level_orders_values(f, d, d);
    lemma2_to64();
    lemma_pow2_pos(149);
    lemma_pow2_pos(124);
    lemma_pow2_adds(174, 23);
    lemma_pow2_adds(149, 149);
    lemma_pow2_adds(124, 276);
    lemma_pow2_adds(24, 298);
    lemma_pow2_adds(24, 174);
    rounding::lemma_pow2_le(197, 298);
    rounding::lemma_pow2_le(322, 400);
    rounding::lemma_pow2_le(198, 276);
    rounding::lemma_pow2_le(23, 124);
    numbers::lemma_packed(f.quotient(l, d));
    if len == 0 {
        arith::lemma_zero_has_no_integer_part(f, usize::MAX as nat);
        assert(0 * u == 0);
        lemma_round_of_nothing(r);
        assert(0 * u * u == 0) by (nonlinear_arith);
        assert(f.quotient(l, d) == f.zero(false));
        assert(n == 0);
    } else {
        let x = len * u;
        // Taken up from the lower bound of the ratio.
        assert((r * 0x100_0000) * 0x20_0000 >= x * 0xff_ffff) by (nonlinear_arith)
            requires
                (r * to) * 0x100_0000 >= (from * u) * 0xff_ffff,
                x == len * u,
                len * to <= from * 0x20_0000,
                to > 0,
                u > 0,
        {
            assert((len * to) * u <= (from * 0x20_0000) * u);
            assert(x * to == (len * to) * u);
            assert((from * 0x20_0000) * u == (from * u) * 0x20_0000);
            assert((x * to) * 0xff_ffff <= ((r * to) * 0x100_0000) * 0x20_0000);
            assert(((r * to) * 0x100_0000) * 0x20_0000 == ((r * 0x100_0000) * 0x20_0000) * to);
            assert((x * to) * 0xff_ffff == (x * 0xff_ffff) * to);
            let p = x * 0xff_ffff;
            let q = (r * 0x100_0000) * 0x20_0000;
            if p > q {
                assert(p * to > q * to);
            }
        }
        // How many samples there are.
        let num = x * u;
        assert(r * pow2(23) <= num < r * pow2(276)) by (nonlinear_arith)
            requires
                num == (len * u) * u,
                0 < len < 0x100_0000,
                pow2(124) <= r <= pow2(174),
                pow2(24) == 0x100_0000,
                pow2(174) * pow2(23) <= u * u,
                pow2(24) * (u * u) <= pow2(124) * pow2(276),
                u > 0,
                pow2(23) > 0,
                pow2(276) > 0,
        {
            assert(num == len * (u * u));
            assert(u * u > 0);
            assert(len * (u * u) >= u * u);
            assert(len * (u * u) < pow2(24) * (u * u));
            assert(r * pow2(23) <= pow2(174) * pow2(23));
            assert(pow2(124) * pow2(276) <= r * pow2(276));
        }
        numbers::lemma_rounded_near(num, r);
        assert(f.quotient(l, d) == f.rounded(false, num, r));
        let s = f.size(f.quotient(l, d));
        lemma_fundamental_div_mod(s as int, u as int);
        lemma_mod_pos_bound(s as int, u as int);
        assert(n * u <= s) by (nonlinear_arith)
            requires
                n <= s / u,
                s == u * (s / u) + s % u,
                s % u >= 0,
                u > 0,
        ;
        assert((n * r) * 0x100_0000 <= x * 0x100_0001) by (nonlinear_arith)
            requires
                n * u <= s,
                (s * r) * 0x100_0000 <= num * 0x100_0001,
                num == x * u,
                u > 0,
        {
            assert((n * u) * r <= s * r);
            assert((n * u) * r == (n * r) * u);
            assert(((n * r) * 0x100_0000) * u <= (x * 0x100_0001) * u);
            let p = (n * r) * 0x100_0000;
            let q = x * 0x100_0001;
            if p > q {
                assert(p * u > q * u);
            }
        }
        assert(n <= 0x40_0000) by (nonlinear_arith)
            requires
                (n * r) * 0x100_0000 <= x * 0x100_0001,
                (r * 0x100_0000) * 0x20_0000 >= x * 0xff_ffff,
                r > 0,
        {
            if n > 0x40_0000 {
                assert(n * r >= 0x40_0001 * r);
            }
        }
        // Where each of them lies.
        assert forall|i: nat| i < n implies #[trigger] source_index(i, from, to) < len by {
            lemma_source_within(i, n, len, from, to, r);
        }
    }
}

/// Nothing rounds to nothing.
pub proof fn lemma_round_of_nothing(den: nat)
    requires
        den > 0,
    ensures
        rounding::round_ratio(24, 0, den) == 0,
{
    rounding::lemma_round_ratio_ratio(24, 0, den, 0, 1);
    rounding::lemma_round_of_quanta(24, 0);
    lemma2_to64();
}

/// One of the samples of the other rate lies among those that there are.
proof fn lemma_source_within(i: nat, n: nat, len: nat, from: nat, to: nat, r: nat)
    requires
        i < n <= 0x40_0000,
        len > 0,
        ({
            let d = Binary32::ratio(from, to).datum();
            &&& !d.negative
            &&& Format::single().is_finite(d)
            &&& r == Format::single().size(d)
        }),
        pow2(124) <= r <= pow2(174),
        (n * r) * 0x100_0000 <= (len * pow2(149)) * 0x100_0001,
        (r * 0x100_0000) * 0x20_0000 >= (len * pow2(149)) * 0xff_ffff,
    ensures
        source_index(i, from, to) < len,
{
    let f = Format::single();
    let u = pow2(149);
    let x = len * u;
    let d = Binary32::ratio(from, to).datum();
    let a = Binary32::of_integer(i).datum();
    numbers::lemma_single_patterns();
    numbers::lemma_small_integer(i);
    lemma2_to64();
    lemma_pow2_pos(149);
    lemma_pow2_pos(124);
    lemma_pow2_adds(24, 174);
    rounding::lemma_pow2_le(198, 276);
    rounding::lemma_pow2_le(23, 124);
    numbers::lemma_packed(f.product(a, d));
    if i == 0 {
        lemma_round_of_nothing(u);
        assert(0 * u == 0);
        assert(0 * r == 0);
        assert(f.product(a, d) == f.zero(false));
        arith::lemma_zero_has_no_integer_part(f, usize::MAX as nat);
    } else {
        let num = (i * u) * r;
        assert(num * 1 == (i * r) * u) by (nonlinear_arith)
            requires
                num == (i * u) * r,
        ;
        rounding::lemma_round_ratio_ratio(24, num, u, i * r, 1);
        assert(f.product(a, d) == f.rounded(false, i * r, 1));
        assert(1 * pow2(23) <= i * r < 1 * pow2(276)) by (nonlinear_arith)
            requires
                0 < i < 0x100_0000,
                pow2(124) <= r <= pow2(174),
                pow2(23) <= pow2(124),
                pow2(24) == 0x100_0000,
                pow2(24) * pow2(174) <= pow2(276),
                pow2(124) > 0,
        {
            assert(i * r >= r);
            assert(i * r < 0x100_0000 * r);
            assert(0x100_0000 * r <= 0x100_0000 * pow2(174));
        }
        numbers::lemma_rounded_near(i * r, 1);
        let s = f.size(f.product(a, d));
        assert(s < x) by (nonlinear_arith)
            requires
                (s * 1) * 0x100_0000 <= (i * r) * 0x100_0001,
                i + 1 <= n,
                (n * r) * 0x100_0000 <= x * 0x100_0001,
                (r * 0x100_0000) * 0x20_0000 >= x * 0xff_ffff,
                r > 0,
        {
            assert((i + 1) * r <= n * r);
            assert((i + 1) * r == i * r + r);
        }
        lemma_fundamental_div_mod(s as int, u as int);
        lemma_mod_pos_bound(s as int, u as int);
        assert(s / u < len) by (nonlinear_arith)
            requires
                s == u * (s / u) + s % u,
                s % u >= 0,
                s < len * u,
                u > 0,
        ;
    }
}

/// Whether a chunk can be brought to another rate.
pub fn can_resample(len: usize, from: u32, to: u32) -> (r: bool)
    ensures
        r == resamples(len as nat, from as nat, to as nat),
{
    if from == to {
        return true;
    }
    let ratio: Binary32 = Binary32::from_ratio(from as u64, to as u64);
    let n: u64 = Binary32::from_integer(len as u64).divide(ratio).truncate(usize::MAX as u64);
    if n > isize::MAX as u64 / 4 {
        return false;
    }
    if n == 0 {
        return true;
    }
    let last: u64 = Binary32::from_integer(n - 1).multiply(ratio).truncate(usize::MAX as u64);
    proof {
        if to == 0 {
            lemma_nothing_at_rate_zero(len as nat, from as nat);
        }
        assert(last == source_index((n - 1) as nat, from as nat, to as nat));
        if last < len {
            assert forall|i: nat| i < n implies #[trigger] source_index(
                i,
                from as nat,
                to as nat,
            ) < len by {
                lemma_source_index_monotone(i, (n - 1) as nat, from as nat, to as nat);
            }
        }
    }
    last < len as u64
}

/// At the rate zero there are no samples.
pub proof fn lemma_nothing_at_rate_zero(len: nat, from: nat)
    requires
        len <= u64::MAX,
        0 < from <= u32::MAX,
    ensures
        resampled_len(len, from, 0) == 0,
{
    let f = Format::single();
    numbers::lemma_single_patterns();
    numbers::lemma_integers_ordered(len, len);
    numbers::lemma_integers_ordered(0, from);
    let n = Binary32::of_integer(from).datum();
    let z = Binary32::of_integer(0).datum();
    assert(f.quotient(n, z) == f.infinite(false));
    numbers::lemma_packed(f.infinite(false));
    let l = Binary32::of_integer(len).datum();
    assert(f.quotient(l, f.infinite(false)) == f.zero(false));
    numbers::lemma_packed(f.zero(false));
    arith::lemma_zero_has_no_integer_part(f, usize::MAX as nat);
}

/// Brings a chunk to another rate.
pub fn resample(s: &Vec<Binary32>, from: u32, to: u32) -> (r: Vec<Binary32>)
    requires
        resamples(s@.len(), from as nat, to as nat),
    ensures
        r@ == resampled(s@, from as nat, to as nat),
{
    if from == to {
        return copy(s);
    }
    let ratio: Binary32 = Binary32::from_ratio(from as u64, to as u64);
    let one: Binary32 = Binary32::from_integer(1);
    let n: u64 = Binary32::from_integer(s.len() as u64).divide(ratio).truncate(usize::MAX as u64);
    let mut r: Vec<Binary32> = Vec::new();
    let mut i: u64 = 0;
    while i < n
        invariant
            i <= n,
            i == r@.len(),
            from != to,
            resamples(s@.len(), from as nat, to as nat),
            n == resampled_len(s@.len(), from as nat, to as nat),
            ratio == Binary32::ratio(from as nat, to as nat),
            one == Binary32::of_integer(1),
            forall|k: int|
                0 <= k < r@.len() ==> #[trigger] r@[k] == interpolated(
                    s@,
                    from as nat,
                    to as nat,
                    k as nat,
                ),
        decreases n - i,
    {
        let position: Binary32 = Binary32::from_integer(i).multiply(ratio);
        let at: usize = position.truncate(usize::MAX as u64) as usize;
        assert(at == source_index(i as nat, from as nat, to as nat));
        let rest: Binary32 = position.subtract(Binary32::from_integer(at as u64));
        let len: usize = s.len();
        let x: Binary32 = if at + 1 < len {
            s[at].multiply(one.subtract(rest)).add(s[at + 1].multiply(rest))
        } else {
            s[at]
        };
        r.push(x);
        i = i + 1;
    }
    assert(r@ =~= resampled(s@, from as nat, to as nat));
    r
}

/// Copies samples.
pub fn copy(s: &Vec<Binary32>) -> (r: Vec<Binary32>)
    ensures
        r@ == s@,
{
    let mut r: Vec<Binary32> = Vec::new();
    let mut i: usize = 0;
    while i < s.len()
        invariant
            i <= s.len(),
            r@ == s@.take(i as int),
        decreases s.len() - i,
    {
        r.push(s[i]);
        assert(s@.take(i + 1) =~= s@.take(i as int).push(s@[i as int]));
        i = i + 1;
    }
    assert(s@.take(s.len() as int) =~= s@);
    r
}

} // verus!
