//! Mean and population standard deviation of a series of timing samples.
//!
//! A sample is a duration in whole nanoseconds. Both results are whole
//! nanoseconds too: the mean and the deviation, each rounded down. Nothing
//! is rounded on the way: the sums are exact, however large the samples.

use vstd::prelude::*;
use crate::wide::{half, lemma_product_bound, product, radix, Wide};

verus! {

/// The sum of the samples.
pub open spec fn total(s: Seq<u64>) -> int
    decreases s.len(),
{
    if s.len() == 0 {
        0
    } else {
        total(s.drop_last()) + s.last()
    }
}

/// The sum of the squares of the samples.
pub open spec fn total_sq(s: Seq<u64>) -> int
    decreases s.len(),
{
    if s.len() == 0 {
        0
    } else {
        total_sq(s.drop_last()) + s.last() * s.last()
    }
}

/// The sum, over the samples `x`, of the squares of `n * x - t`.
pub open spec fn spread(s: Seq<u64>, n: int, t: int) -> int
    decreases s.len(),
{
    if s.len() == 0 {
        0
    } else {
        spread(s.drop_last(), n, t) + (n * s.last() - t) * (n * s.last() - t)
    }
}

/// The squared distances of the samples from their mean, summed, and
/// scaled by the square of their number so that no fraction appears:
/// with `n` samples of sum `t`, the distance of `x` from the mean `t / n`
/// is `(n * x - t) / n`.
pub open spec fn deviation(s: Seq<u64>) -> int {
    spread(s, s.len() as int, total(s))
}

/// The mean of the samples, rounded down.
pub open spec fn spec_mean(s: Seq<u64>) -> int
    recommends
        s.len() > 0,
{
    total(s) / (s.len() as int)
}

/// Whether `r` is the population standard deviation of the samples,
/// rounded down. The variance of `n` samples is `deviation(s) / n^3`, so
/// `r` is the one number with `r^2 <= variance < (r + 1)^2`.
pub open spec fn is_stddev(s: Seq<u64>, r: int) -> bool {
    let n = s.len() as int;
    &&& 0 <= r
    &&& r * r * (n * n * n) <= deviation(s)
    &&& deviation(s) < (r + 1) * (r + 1) * (n * n * n)
}

/// The population standard deviation of the samples, rounded down.
pub open spec fn spec_stddev(s: Seq<u64>) -> int
    recommends
        s.len() > 0,
{
    choose|r: int| is_stddev(s, r)
}

/// Squaring keeps the order of natural numbers, and so does scaling by a
/// positive factor.
proof fn lemma_square_scaled_monotone(a: int, b: int, k: int)
    requires
        0 <= a <= b,
        0 <= k,
    ensures
        a * a * k <= b * b * k,
{
    assert(a * a <= b * b) by (nonlinear_arith)
        requires
            0 <= a <= b,
    ;
    assert(a * a * k <= b * b * k) by (nonlinear_arith)
        requires
            a * a <= b * b,
            0 <= k,
    ;
}

/// At most one number is the rounded-down deviation of a series.
pub proof fn lemma_stddev_unique(s: Seq<u64>, a: int, b: int)
    requires
        s.len() > 0,
        is_stddev(s, a),
        is_stddev(s, b),
    ensures
        a == b,
{
    let n = s.len() as int;
    let k = n * n * n;
    assert(0 <= k) by (nonlinear_arith)
        requires
            0 <= n,
            k == n * n * n,
    ;
    if a < b {
        lemma_square_scaled_monotone(a + 1, b, k);
    }
    if b < a {
        lemma_square_scaled_monotone(b + 1, a, k);
    }
}

/// Taking one more sample adds it to the sums.
proof fn lemma_take_next(s: Seq<u64>, i: int)
    requires
        0 <= i < s.len(),
    ensures
        total(s.take(i + 1)) == total(s.take(i)) + s[i],
        total_sq(s.take(i + 1)) == total_sq(s.take(i)) + s[i] * s[i],
{
    assert(s.take(i + 1).drop_last() =~= s.take(i));
}

/// The spread written out in the two sums.
proof fn lemma_spread_expanded(s: Seq<u64>, n: int, t: int)
    ensures
        spread(s, n, t) == n * n * total_sq(s) - 2 * n * t * total(s) + s.len() * (t * t),
        spread(s, n, t) >= 0,
    decreases s.len(),
{
    if s.len() > 0 {
        let p = s.drop_last();
        let x = s.last() as int;
        lemma_spread_expanded(p, n, t);
        let q = total_sq(p);
        let u = total(p);
        let m = p.len() as int;
        assert((n * x - t) * (n * x - t) == n * n * (x * x) - 2 * n * t * x + t * t)
            by (nonlinear_arith);
        assert(n * n * (q + x * x) == n * n * q + n * n * (x * x)) by (nonlinear_arith);
        assert(2 * n * t * (u + x) == 2 * n * t * u + 2 * n * t * x) by (nonlinear_arith);
        assert((m + 1) * (t * t) == m * (t * t) + t * t) by (nonlinear_arith);
        assert((n * x - t) * (n * x - t) >= 0) by (nonlinear_arith);
    }
}

/// With `n` the number of samples and `t` their sum, the deviation is `n`
/// times `n * total_sq - t * t`; so that difference is never negative.
proof fn lemma_deviation_closed(s: Seq<u64>)
    requires
        s.len() > 0,
    ensures
        deviation(s) == s.len() * (s.len() * total_sq(s) - total(s) * total(s)),
        s.len() * total_sq(s) - total(s) * total(s) >= 0,
{
    let n = s.len() as int;
    let t = total(s);
    let q = total_sq(s);
    lemma_spread_expanded(s, n, t);
    assert(n * n * q - 2 * n * t * t + n * (t * t) == n * (n * q - t * t)) by (nonlinear_arith);
    assert(2 * n * t * t == 2 * n * (t * t)) by (nonlinear_arith);
    assert(n * q - t * t >= 0) by (nonlinear_arith)
        requires
            n > 0,
            n * (n * q - t * t) >= 0,
    ;
}

/// From the bracket of the search to the deviation: if `(r * n)^2` is at
/// most `d` and `((r + 1) * n)^2` is more, with `n * d` the deviation of the
/// samples, then `r` is their rounded-down standard deviation.
proof fn lemma_bracket_is_stddev(s: Seq<u64>, d: int, r: int)
    requires
        s.len() > 0,
        0 <= r,
        deviation(s) == s.len() * d,
        (r * s.len()) * (r * s.len()) <= d,
        d < ((r + 1) * s.len()) * ((r + 1) * s.len()),
    ensures
        is_stddev(s, r),
{
    let n = s.len() as int;
    assert(n * ((r * n) * (r * n)) == r * r * (n * n * n)) by (nonlinear_arith);
    assert(n * (((r + 1) * n) * ((r + 1) * n)) == (r + 1) * (r + 1) * (n * n * n))
        by (nonlinear_arith);
    assert(n * ((r * n) * (r * n)) <= n * d) by (nonlinear_arith)
        requires
            n > 0,
            (r * n) * (r * n) <= d,
    ;
    assert(n * d < n * (((r + 1) * n) * ((r + 1) * n))) by (nonlinear_arith)
        requires
            n > 0,
            d < ((r + 1) * n) * ((r + 1) * n),
    ;
}

/// Each sample is below two to the power 64, and so the sums are bounded.
proof fn lemma_sums_bounded(s: Seq<u64>)
    ensures
        0 <= total(s) <= s.len() * (half() - 1),
        0 <= total_sq(s) <= s.len() * ((half() - 1) * (half() - 1)),
    decreases s.len(),
{
    let top = half() - 1;
    if s.len() > 0 {
        let p = s.drop_last();
        let x = s.last() as int;
        lemma_sums_bounded(p);
        lemma_product_bound(x, x, top, top);
        assert((p.len() + 1) * top == p.len() * top + top) by (nonlinear_arith);
        assert((p.len() + 1) * (top * top) == p.len() * (top * top) + top * top)
            by (nonlinear_arith);
    } else {
        assert(0 * top == 0) by (nonlinear_arith);
        assert(0 * (top * top) == 0) by (nonlinear_arith);
    }
}

/// Whether `r` is the last number whose square, scaled by `k`, is at most
/// `d`.
spec fn is_scaled_root(d: int, k: int, r: int) -> bool {
    0 <= r && r * r * k <= d && d < (r + 1) * (r + 1) * k
}

/// Above any number whose scaled square is at most `d` there is a last one.
proof fn lemma_root_exists(d: int, k: int, r: int)
    requires
        k > 0,
        r >= 0,
        r * r * k <= d,
    ensures
        exists|root: int| #[trigger] is_scaled_root(d, k, root),
    decreases d - r * r * k,
{
    if (r + 1) * (r + 1) * k <= d {
        assert(r * r * k < (r + 1) * (r + 1) * k) by (nonlinear_arith)
            requires
                k > 0,
                r >= 0,
        ;
        lemma_root_exists(d, k, r + 1);
    } else {
        assert(is_scaled_root(d, k, r));
    }
}

/// Every series that is not empty has a mean and a standard deviation,
/// and both, rounded down, fit in 64 bits.
pub proof fn lemma_statistic_defined(s: Seq<u64>)
    requires
        s.len() > 0,
    ensures
        0 <= spec_mean(s) <= u64::MAX,
        is_stddev(s, spec_stddev(s)),
        0 <= spec_stddev(s) <= u64::MAX,
{
    let n = s.len() as int;
    let t = total(s);
    let q = total_sq(s);
    let top = half() - 1;
    let k = n * n * n;
    lemma_sums_bounded(s);
    lemma_deviation_closed(s);
    assert(0 <= t / n <= top) by (nonlinear_arith)
        requires
            0 <= t <= n * top,
            n > 0,
    ;
    assert(k > 0) by (nonlinear_arith)
        requires
            n > 0,
            k == n * n * n,
    ;
    assert(0 * 0 * k == 0) by (nonlinear_arith);
    assert(deviation(s) >= 0) by (nonlinear_arith)
        requires
            deviation(s) == n * (n * q - t * t),
            n * q - t * t >= 0,
            n > 0,
    ;
    lemma_root_exists(deviation(s), k, 0);
    let root = choose|root: int| #[trigger] is_scaled_root(deviation(s), k, root);
    assert(is_stddev(s, root));
    let r = spec_stddev(s);
    assert(is_stddev(s, r));
    if r >= half() {
        lemma_square_scaled_monotone(half(), r, k);
        assert(deviation(s) <= n * (n * q)) by (nonlinear_arith)
            requires
                deviation(s) == n * (n * q - t * t),
                n > 0,
                t * t >= 0,
        ;
        assert(n * (n * q) <= n * (n * (n * (top * top)))) by (nonlinear_arith)
            requires
                0 <= q <= n * (top * top),
                n > 0,
        ;
        assert(n * (n * (n * (top * top))) < half() * half() * k) by (nonlinear_arith)
            requires
                k == n * n * n,
                k > 0,
                top == half() - 1,
                half() > 2,
        ;
    }
}

/// A single sample is its own mean and deviates from it by nothing.
pub proof fn lemma_single_sample(x: u64)
    ensures
        spec_mean(seq![x]) == x,
        is_stddev(seq![x], 0),
        spec_stddev(seq![x]) == 0,
{
    let s = seq![x];
    assert(s.drop_last() =~= Seq::<u64>::empty());
    assert(total(s) == total(s.drop_last()) + x);
    assert(total(s.drop_last()) == 0);
    assert(spread(s.drop_last(), 1, x as int) == 0);
    assert(deviation(s) == (1 * x - x) * (1 * x - x));
    assert((1 * x - x) * (1 * x - x) == 0) by (nonlinear_arith);
    let n = s.len() as int;
    assert(0 * 0 * (n * n * n) == 0) by (nonlinear_arith);
    assert((0 + 1) * (0 + 1) * (n * n * n) == 1) by (nonlinear_arith)
        requires
            n == 1,
    ;
    assert(is_stddev(s, 0));
    lemma_stddev_unique(s, 0, spec_stddev(s));
}

/// The sum of the samples and the sum of their squares.
fn sums(data: &[u64]) -> (r: (u128, Wide))
    ensures
        r.0 == total(data@),
        r.1.value() == total_sq(data@),
{
    let n: usize = data.len();
    let mut sum: u128 = 0;
    let mut squares = Wide { hi: 0, lo: 0 };
    let mut i: usize = 0;
    while i < n
        invariant
            n == data@.len(),
            0 <= i <= n,
            sum == total(data@.take(i as int)),
            squares.value() == total_sq(data@.take(i as int)),
        decreases n - i,
    {
        let x: u128 = data[i] as u128;
        proof {
            let top = half() - 1;
            lemma_take_next(data@, i as int);
            lemma_sums_bounded(data@.take(i + 1));
            assert((i + 1) * top <= top * top) by (nonlinear_arith)
                requires
                    0 <= i + 1 <= top,
            ;
            assert((i + 1) * (top * top) <= top * (top * top)) by (nonlinear_arith)
                requires
                    0 <= i + 1 <= top,
                    0 <= top * top,
            ;
            assert(top * top < radix() && top * (top * top) < radix() * radix())
                by (nonlinear_arith)
                requires
                    top == half() - 1,
                    radix() == half() * half(),
                    half() > 2,
            ;
            lemma_product_bound(x as int, x as int, top, top);
        }
        sum = sum + x;
        squares = squares.plus(x * x);
        i = i + 1;
    }
    proof {
        assert(data@.take(n as int) =~= data@);
    }
    (sum, squares)
}

/// The mean and the population standard deviation of the samples, each in
/// the samples' unit and rounded down; nothing for an empty series.
pub fn statistic(data: &[u64]) -> (r: Option<(u64, u64)>)
    ensures
        r is None <==> data@.len() == 0,
        r matches Some((mean, stddev)) ==> {
            &&& mean == spec_mean(data@)
            &&& is_stddev(data@, stddev as int)
            &&& stddev == spec_stddev(data@)
        },
{
    let n: usize = data.len();
    if n == 0 {
        return None;
    }
    let count: u128 = n as u128;
    let (sum, squares) = sums(data);
    let ghost top = half() - 1;
    let ghost t = total(data@);
    let ghost q = total_sq(data@);
    proof {
        lemma_sums_bounded(data@);
        lemma_deviation_closed(data@);
        assert(top * top == radix() - 2 * half() + 1) by (nonlinear_arith)
            requires
                top == half() - 1,
        ;
        assert(n * top <= top * top) by (nonlinear_arith)
            requires
                0 <= n <= top,
        ;
        assert(t / (n as int) <= top) by (nonlinear_arith)
            requires
                0 <= t <= n * top,
                n > 0,
        ;
    }
    let mean: u64 = (sum / count) as u64;

    // n * q, from the two halves of q
    let low = product(count, squares.lo);
    proof {
        lemma_product_bound(n as int, squares.hi as int, top, radix() - 1);
        assert(n * q == (n * squares.hi) * radix() + n * squares.lo) by (nonlinear_arith)
            requires
                q == squares.hi * radix() + squares.lo,
        ;
        assert(n * q <= n * (n * (top * top))) by (nonlinear_arith)
            requires
                0 <= q <= n * (top * top),
                0 <= n,
        ;
        assert(n * (n * (top * top)) <= top * (top * (top * top))) by (nonlinear_arith)
            requires
                0 <= n <= top,
                0 <= top * top,
        ;
        assert(top * (top * (top * top)) < radix() * radix()) by (nonlinear_arith)
            requires
                top * top == radix() - 2 * half() + 1,
                half() > 2,
                radix() == half() * half(),
        ;
        assert(0 <= n * squares.hi) by (nonlinear_arith)
            requires
                0 <= n,
                0 <= squares.hi,
        ;
        assert((n * squares.hi + low.hi) * radix() + low.lo == n * q);
        assert(n * squares.hi + low.hi < radix()) by (nonlinear_arith)
            requires
                (n * squares.hi + low.hi) * radix() + low.lo < radix() * radix(),
                0 <= low.lo,
                radix() > 0,
        ;
    }
    let scaled = Wide { hi: count * squares.hi + low.hi, lo: low.lo };
    let square_of_sum = product(sum, sum);
    let d = scaled.minus(square_of_sum);
    let ghost dv = d.value();
    assert(dv == n * q - t * t);
    assert(deviation(data@) == n * dv);

    // the largest r with (r * n)^2 <= d
    let mut lo: u128 = 0;
    let mut hi: u128 = 0x1_0000_0000_0000_0000;
    proof {
        assert((0 * n) * (0 * n) == 0) by (nonlinear_arith);
        assert(dv <= n * q);
        assert(n * (n * (top * top)) < (half() * n) * (half() * n)) by (nonlinear_arith)
            requires
                top == half() - 1,
                n > 0,
                half() > 2,
        ;
    }
    while hi - lo > 1
        invariant
            0 < n <= half() - 1,
            count == n,
            dv == d.value(),
            0 <= lo < hi <= half(),
            (lo * n) * (lo * n) <= dv,
            dv < (hi * n) * (hi * n),
        decreases hi - lo,
    {
        let mid: u128 = lo + (hi - lo) / 2;
        proof {
            lemma_product_bound(mid as int, n as int, half() - 1, half() - 1);
            assert((half() - 1) * (half() - 1) < radix()) by (nonlinear_arith);
        }
        let side: u128 = mid * count;
        let area = product(side, side);
        if area.le(d) {
            lo = mid;
        } else {
            hi = mid;
        }
    }
    let stddev: u64 = lo as u64;
    proof {
        assert(hi == lo + 1);
        lemma_bracket_is_stddev(data@, dv, lo as int);
        lemma_stddev_unique(data@, lo as int, spec_stddev(data@));
    }
    Some((mean, stddev))
}

} // verus!
