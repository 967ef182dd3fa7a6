//! Statistics helpers over fixed-point samples: means, population
//! standard deviation, and window normalization for the scorer.
//!
//! Results are exact integer statistics: a mean is the truncated
//! quotient of sum and count, and a standard deviation is the integer
//! square root of the truncated population variance. Helpers whose
//! statistic is undefined on the given data return `None` instead of
//! propagating an undefined value into threshold logic.
use vstd::prelude::*;

use crate::SCALE;
use crate::VAL_BOUND;

verus! {

/// Truncated (round-toward-zero) signed division, as machine division
/// behaves; meaningful for positive divisors.
pub open spec fn div_tz(a: int, b: int) -> int {
    if a >= 0 {
        a / b
    } else {
        -((-a) / b)
    }
}

/// Sum of a sequence of samples.
pub open spec fn seq_sum(s: Seq<i64>) -> int
    decreases s.len(),
{
    if s.len() == 0 {
        0
    } else {
        seq_sum(s.drop_last()) + s.last()
    }
}

/// Truncated mean of a non-empty sequence.
pub open spec fn mean_tz(s: Seq<i64>) -> int {
    div_tz(seq_sum(s), s.len() as int)
}

/// Sum of squared deviations from `mu`.
pub open spec fn seq_sq_dev(s: Seq<i64>, mu: int) -> int
    decreases s.len(),
{
    if s.len() == 0 {
        0
    } else {
        seq_sq_dev(s.drop_last(), mu) + (s.last() - mu) * (s.last() - mu)
    }
}

/// Truncated population variance (biased estimator, by design).
pub open spec fn pop_variance(s: Seq<i64>) -> int {
    seq_sq_dev(s, mean_tz(s)) / s.len() as int
}

/// Floor of the square root: the unique `r >= 0` with
/// `r * r <= n < (r + 1) * (r + 1)`.
pub open spec fn sqrt_floor(n: int) -> int {
    choose|r: int| 0 <= r && #[trigger] (r * r) <= n < (r + 1) * (r + 1)
}

/// Every element's magnitude is at most `b`.
pub open spec fn all_le(s: Seq<i64>, b: int) -> bool {
    forall|i: int| 0 <= i < s.len() ==> -b <= #[trigger] s[i] <= b
}

/// Any value meeting the square-root characterization is `sqrt_floor`.
pub proof fn lemma_sqrt_floor_is(n: int, r: int)
    requires
        0 <= r,
        r * r <= n,
        n < (r + 1) * (r + 1),
    ensures
        sqrt_floor(n) == r,
{
    assert(exists|q: int| 0 <= q && #[trigger] (q * q) <= n < (q + 1) * (q + 1)) by {
        assert(0 <= r && r * r <= n < (r + 1) * (r + 1));
    }
    let q = sqrt_floor(n);
    assert(0 <= q && q * q <= n < (q + 1) * (q + 1)) by {
        assert(0 <= q && #[trigger] (q * q) <= n < (q + 1) * (q + 1));
    }
    if q < r {
        assert((q + 1) * (q + 1) <= r * r) by (nonlinear_arith)
            requires
                0 <= q < r,
        ;
        assert(false);
    }
    if r < q {
        assert((r + 1) * (r + 1) <= q * q) by (nonlinear_arith)
            requires
                0 <= r < q,
        ;
        assert(false);
    }
}

proof fn lemma_all_le_drop_last(s: Seq<i64>, b: int)
    requires
        s.len() > 0,
        all_le(s, b),
    ensures
        all_le(s.drop_last(), b),
{
    assert forall|i: int| 0 <= i < s.drop_last().len() implies -b <= #[trigger] s.drop_last()[i]
        <= b by {
        assert(s.drop_last()[i] == s[i]);
    }
}

proof fn lemma_seq_sum_bound(s: Seq<i64>, b: int)
    requires
        all_le(s, b),
        0 <= b,
    ensures
        -(s.len() * b) <= seq_sum(s) <= s.len() * b,
    decreases s.len(),
{
    if s.len() == 0 {
    } else {
        lemma_all_le_drop_last(s, b);
        lemma_seq_sum_bound(s.drop_last(), b);
        assert(s.len() * b == s.drop_last().len() * b + b) by (nonlinear_arith)
            requires
                s.len() == s.drop_last().len() + 1,
        ;
        assert(-b <= s.last() <= b);
    }
}

pub proof fn lemma_div_tz_bound(a: int, n: int, b: int)
    requires
        0 < n,
        0 <= b,
        -(n * b) <= a <= n * b,
    ensures
        -b <= div_tz(a, n) <= b,
{
    if a >= 0 {
        vstd::arithmetic::div_mod::lemma_multiply_divide_le(a, n, b);
        vstd::arithmetic::div_mod::lemma_div_is_ordered(0, a, n);
        vstd::arithmetic::div_mod::lemma_div_of0(n);
    } else {
        vstd::arithmetic::div_mod::lemma_multiply_divide_le(-a, n, b);
        vstd::arithmetic::div_mod::lemma_div_is_ordered(0, -a, n);
        vstd::arithmetic::div_mod::lemma_div_of0(n);
    }
}

/// A non-empty sequence's truncated mean lies within the element bound.
pub proof fn lemma_mean_bound(s: Seq<i64>, b: int)
    requires
        s.len() > 0,
        all_le(s, b),
        0 <= b,
    ensures
        -b <= mean_tz(s) <= b,
{
    lemma_seq_sum_bound(s, b);
    lemma_div_tz_bound(seq_sum(s), s.len() as int, b);
}

/// Truncated signed division of a wide accumulator by a positive count.
pub(crate) fn div_i128_tz(a: i128, b: u128) -> (q: i128)
    requires
        0 < b,
        -0x4000_0000_0000_0000_0000_0000_0000_0000i128 < a,
    ensures
        q == div_tz(a as int, b as int),
{
    if a >= 0 {
        let q: u128 = (a as u128) / b;
        proof {
            assert(q <= a) by (nonlinear_arith)
                requires
                    0 <= a,
                    1 <= b,
                    q == (a as int) / (b as int),
            ;
        }
        q as i128
    } else {
        let m: u128 = (-a) as u128;
        let q: u128 = m / b;
        proof {
            assert(q <= m) by (nonlinear_arith)
                requires
                    0 <= m,
                    1 <= b,
                    q == (m as int) / (b as int),
            ;
        }
        -(q as i128)
    }
}

/// Sums a bounded list into a wide accumulator.
fn sum_list(data: &[i64]) -> (s: i128)
    requires
        all_le(data@, 0x4_0000_0000_0000),
    ensures
        s == seq_sum(data@),
        -(data@.len() * 0x4_0000_0000_0000) <= s <= data@.len() * 0x4_0000_0000_0000,
{
    let mut s: i128 = 0;
    let mut i: usize = 0;
    while i < data.len()
        invariant
            i <= data@.len(),
            all_le(data@, 0x4_0000_0000_0000),
            s == seq_sum(data@.subrange(0, i as int)),
            -(i * 0x4_0000_0000_0000) <= s <= i * 0x4_0000_0000_0000,
        decreases data@.len() - i,
    {
        proof {
            assert((i + 1) * 0x4_0000_0000_0000 == i * 0x4_0000_0000_0000
                + 0x4_0000_0000_0000) by (nonlinear_arith);
            vstd::arithmetic::mul::lemma_mul_inequality(
                i + 1,
                0x1_0000_0000_0000_0000,
                0x4_0000_0000_0000,
            );
            assert(data@.subrange(0, i + 1).drop_last() =~= data@.subrange(0, i as int));
        }
        s = s + data[i] as i128;
        i = i + 1;
    }
    proof {
        assert(data@.subrange(0, data@.len() as int) =~= data@);
    }
    s
}

/// Truncated mean of a non-empty bounded list.
fn mean_of(data: &[i64]) -> (m: i64)
    requires
        data@.len() > 0,
        all_le(data@, 0x4_0000_0000_0000),
    ensures
        m == mean_tz(data@),
        -0x4_0000_0000_0000 <= m <= 0x4_0000_0000_0000,
{
    let s: i128 = sum_list(data);
    let n: usize = data.len();
    proof {
        vstd::arithmetic::mul::lemma_mul_inequality(
            n as int,
            0x1_0000_0000_0000_0000,
            0x4_0000_0000_0000,
        );
        lemma_div_tz_bound(s as int, n as int, 0x4_0000_0000_0000);
    }
    let q: i128 = div_i128_tz(s, n as u128);
    q as i64
}

/// Integer square root by binary search.
fn isqrt(x: u128) -> (r: u128)
    requires
        x < 0x4_0000_0000_0000_0000_0000_0000_0000,
    ensures
        r * r <= x < (r + 1) * (r + 1),
        r as int == sqrt_floor(x as int),
{
    let mut lo: u128 = 0;
    let mut hi: u128 = 0x200_0000_0000_0000;
    proof {
        assert(0x200_0000_0000_0000 * 0x200_0000_0000_0000
            == 0x4_0000_0000_0000_0000_0000_0000_0000) by (nonlinear_arith);
    }
    while lo + 1 < hi
        invariant
            lo < hi <= 0x200_0000_0000_0000,
            lo * lo <= x,
            x < hi * hi,
        decreases hi - lo,
    {
        let mid: u128 = lo + (hi - lo) / 2;
        proof {
            vstd::arithmetic::mul::lemma_mul_upper_bound(
                mid as int,
                0x200_0000_0000_0000,
                mid as int,
                0x200_0000_0000_0000,
            );
            assert(0x200_0000_0000_0000 * 0x200_0000_0000_0000
                == 0x4_0000_0000_0000_0000_0000_0000_0000) by (nonlinear_arith);
        }
        if mid * mid <= x {
            lo = mid;
        } else {
            hi = mid;
        }
    }
    proof {
        lemma_sqrt_floor_is(x as int, lo as int);
    }
    lo
}

/// Truncated mean of the recorded values, or `None` when none have
/// been recorded.
pub fn average_vec_deque(data: &Vec<i64>) -> (r: Option<i64>)
    requires
        all_le(data@, VAL_BOUND as int),
    ensures
        r is Some <==> data@.len() > 0,
        r matches Some(m) ==> m == mean_tz(data@) && -VAL_BOUND <= m <= VAL_BOUND,
{
    if data.len() == 0 {
        return None;
    }
    proof {
        assert forall|i: int| 0 <= i < data@.len() implies -0x4_0000_0000_0000
            <= #[trigger] data@[i] <= 0x4_0000_0000_0000 by {
            assert(-VAL_BOUND <= data@[i] <= VAL_BOUND);
        }
        lemma_mean_bound(data@, VAL_BOUND as int);
    }
    Some(mean_of(data.as_slice()))
}

/// Integer population standard deviation of the recorded values, or
/// `None` when fewer than two have been recorded and the statistic is
/// undefined.
pub fn std_dev_vec_deque(data: &Vec<i64>) -> (r: Option<i64>)
    requires
        all_le(data@, VAL_BOUND as int),
        data@.len() <= 0x1_0000_0000,
    ensures
        r is Some <==> data@.len() >= 2,
        r matches Some(sd) ==> sd == sqrt_floor(pop_variance(data@)) && 0 <= sd,
{
    if data.len() < 2 {
        return None;
    }
    Some(std_of(data.as_slice()))
}

/// Integer population standard deviation of a non-empty bounded list.
fn std_of(data: &[i64]) -> (sd: i64)
    requires
        data@.len() > 0,
        data@.len() <= 0x1_0000_0000,
        all_le(data@, VAL_BOUND as int),
    ensures
        sd == sqrt_floor(pop_variance(data@)),
        0 <= sd,
{
    proof {
        assert forall|i: int| 0 <= i < data@.len() implies -0x4_0000_0000_0000
            <= #[trigger] data@[i] <= 0x4_0000_0000_0000 by {
            assert(-VAL_BOUND <= data@[i] <= VAL_BOUND);
        }
        lemma_mean_bound(data@, VAL_BOUND as int);
    }
    let mu: i64 = mean_of(data);
    let mut ssd: i128 = 0;
    let mut i: usize = 0;
    while i < data.len()
        invariant
            i <= data@.len(),
            data@.len() <= 0x1_0000_0000,
            all_le(data@, VAL_BOUND as int),
            -VAL_BOUND <= mu <= VAL_BOUND,
            ssd == seq_sq_dev(data@.subrange(0, i as int), mu as int),
            0 <= ssd <= i * 0x40_0000_0000_0000_0000_0000,
        decreases data@.len() - i,
    {
        let d: i128 = data[i] as i128 - mu as i128;
        proof {
            assert(0 <= d * d <= 0x40_0000_0000_0000_0000_0000) by (nonlinear_arith)
                requires
                    -0x800_0000_0000i128 <= d <= 0x800_0000_0000i128,
            ;
            assert((i + 1) * 0x40_0000_0000_0000_0000_0000 == i * 0x40_0000_0000_0000_0000_0000
                + 0x40_0000_0000_0000_0000_0000) by (nonlinear_arith);
            vstd::arithmetic::mul::lemma_mul_inequality(
                i + 1,
                0x1_0000_0000,
                0x40_0000_0000_0000_0000_0000,
            );
            assert(data@.subrange(0, i + 1).drop_last() =~= data@.subrange(0, i as int));
        }
        ssd = ssd + d * d;
        i = i + 1;
    }
    proof {
        assert(data@.subrange(0, data@.len() as int) =~= data@);
        vstd::arithmetic::mul::lemma_mul_inequality(
            data@.len() as int,
            0x1_0000_0000,
            0x40_0000_0000_0000_0000_0000,
        );
        vstd::arithmetic::div_mod::lemma_multiply_divide_le(
            ssd as int,
            data@.len() as int,
            0x40_0000_0000_0000_0000_0000,
        );
        vstd::arithmetic::div_mod::lemma_div_is_ordered(0, ssd as int, data@.len() as int);
        vstd::arithmetic::div_mod::lemma_div_of0(data@.len() as int);
    }
    let var: u128 = (ssd as u128) / (data.len() as u128);
    let s: u128 = isqrt(var);
    proof {
        assert(s <= 0x800_0000_0000) by (nonlinear_arith)
            requires
                0 <= s,
                s * s <= 0x40_0000_0000_0000_0000_0000,
        ;
    }
    s as i64
}


/// One column of a row-major list: the `c`-th entry of every row that
/// has one, in row order.
pub open spec fn column(rows: Seq<Vec<i64>>, c: int) -> Seq<i64>
    decreases rows.len(),
{
    if rows.len() == 0 {
        Seq::<i64>::empty()
    } else {
        let rest = column(rows.drop_last(), c);
        if 0 <= c < rows.last()@.len() {
            rest.push(rows.last()@[c])
        } else {
            rest
        }
    }
}

/// Every entry of every row is within the sample bound.
pub open spec fn rows_bounded(rows: Seq<Vec<i64>>) -> bool {
    forall|i: int| 0 <= i < rows.len() ==> all_le(#[trigger] rows[i]@, VAL_BOUND as int)
}

pub proof fn lemma_column_bounded(rows: Seq<Vec<i64>>, c: int)
    requires
        rows_bounded(rows),
    ensures
        all_le(column(rows, c), VAL_BOUND as int),
    decreases rows.len(),
{
    if rows.len() > 0 {
        assert forall|i: int| 0 <= i < rows.drop_last().len() implies all_le(
            #[trigger] rows.drop_last()[i]@,
            VAL_BOUND as int,
        ) by {
            assert(rows.drop_last()[i] == rows[i]);
        }
        lemma_column_bounded(rows.drop_last(), c);
        let rest = column(rows.drop_last(), c);
        if 0 <= c < rows.last()@.len() {
            assert(all_le(rows.last()@, VAL_BOUND as int));
            assert forall|i: int| 0 <= i < column(rows, c).len() implies -VAL_BOUND
                <= #[trigger] column(rows, c)[i] <= VAL_BOUND by {
                if i < rest.len() {
                    assert(column(rows, c)[i] == rest[i]);
                } else {
                    assert(column(rows, c)[i] == rows.last()@[c]);
                }
            }
        }
    }
}

/// Collects one column of the rows into a list.
pub(crate) fn column_vec(rows: &Vec<Vec<i64>>, c: usize) -> (r: Vec<i64>)
    ensures
        r@ == column(rows@, c as int),
{
    let mut r: Vec<i64> = Vec::new();
    let mut i: usize = 0;
    while i < rows.len()
        invariant
            i <= rows@.len(),
            r@ == column(rows@.subrange(0, i as int), c as int),
        decreases rows@.len() - i,
    {
        proof {
            assert(rows@.subrange(0, i + 1).drop_last() =~= rows@.subrange(0, i as int));
            assert(rows@.subrange(0, i + 1).last() == rows@[i as int]);
        }
        let row: &Vec<i64> = &rows[i];
        if c < row.len() {
            r.push(row[c]);
        }
        i = i + 1;
    }
    proof {
        assert(rows@.subrange(0, rows@.len() as int) =~= rows@);
    }
    r
}

/// Per-column truncated means of the accumulated `(v0, v1)` rows, or
/// `None` when a column has no entries and its mean is undefined.
pub fn average_vec(vec: &Vec<Vec<i64>>) -> (r: Option<(i64, i64)>)
    requires
        rows_bounded(vec@),
    ensures
        r is Some <==> (column(vec@, 0).len() > 0 && column(vec@, 1).len() > 0),
        r matches Some(av) ==> av.0 == mean_tz(column(vec@, 0)) && av.1 == mean_tz(
            column(vec@, 1),
        ) && -VAL_BOUND <= av.0 <= VAL_BOUND && -VAL_BOUND <= av.1 <= VAL_BOUND,
{
    let c0: Vec<i64> = column_vec(vec, 0);
    let c1: Vec<i64> = column_vec(vec, 1);
    if c0.len() == 0 || c1.len() == 0 {
        return None;
    }
    proof {
        lemma_column_bounded(vec@, 0);
        lemma_column_bounded(vec@, 1);
        assert forall|i: int| 0 <= i < c0@.len() implies -0x4_0000_0000_0000
            <= #[trigger] c0@[i] <= 0x4_0000_0000_0000 by {
            assert(-VAL_BOUND <= c0@[i] <= VAL_BOUND);
        }
        assert forall|i: int| 0 <= i < c1@.len() implies -0x4_0000_0000_0000
            <= #[trigger] c1@[i] <= 0x4_0000_0000_0000 by {
            assert(-VAL_BOUND <= c1@[i] <= VAL_BOUND);
        }
        lemma_mean_bound(c0@, VAL_BOUND as int);
        lemma_mean_bound(c1@, VAL_BOUND as int);
    }
    let a0: i64 = mean_of(c0.as_slice());
    let a1: i64 = mean_of(c1.as_slice());
    Some((a0, a1))
}

/// Integer population standard deviation of each channel's epoch
/// samples, or `None` when a channel is empty and the statistic is
/// undefined.
pub fn std_dev(data1: &[i64], data2: &[i64]) -> (r: Option<(i64, i64)>)
    requires
        all_le(data1@, VAL_BOUND as int),
        all_le(data2@, VAL_BOUND as int),
        data1@.len() <= 0x1_0000_0000,
        data2@.len() <= 0x1_0000_0000,
    ensures
        r is Some <==> (data1@.len() > 0 && data2@.len() > 0),
        r matches Some(sds) ==> sds.0 == sqrt_floor(pop_variance(data1@)) && sds.1 == sqrt_floor(
            pop_variance(data2@),
        ) && 0 <= sds.0 && 0 <= sds.1,
{
    if data1.len() == 0 || data2.len() == 0 {
        return None;
    }
    let s1: i64 = std_of(data1);
    let s2: i64 = std_of(data2);
    Some((s1, s2))
}

/// Smallest element of a non-empty sequence.
pub open spec fn seq_min(s: Seq<i64>) -> int
    recommends
        s.len() > 0,
    decreases s.len(),
{
    if s.len() <= 1 {
        s[0] as int
    } else {
        let m = seq_min(s.drop_last());
        if s.last() < m {
            s.last() as int
        } else {
            m
        }
    }
}

/// The minimum is a lower bound for every element.
pub proof fn lemma_seq_min_le(s: Seq<i64>, i: int)
    requires
        0 <= i < s.len(),
    ensures
        seq_min(s) <= s[i],
    decreases s.len(),
{
    if s.len() > 1 && i < s.len() - 1 {
        lemma_seq_min_le(s.drop_last(), i);
        assert(s.drop_last()[i] == s[i]);
    }
}

proof fn lemma_seq_min_ge(s: Seq<i64>, b: int)
    requires
        s.len() > 0,
        all_le(s, b),
    ensures
        -b <= seq_min(s),
    decreases s.len(),
{
    if s.len() > 1 {
        lemma_all_le_drop_last(s, b);
        lemma_seq_min_ge(s.drop_last(), b);
    }
}

/// Smallest element of a non-empty list.
pub fn min_of(data: &Vec<i64>) -> (m: i64)
    requires
        data@.len() > 0,
    ensures
        m == seq_min(data@),
{
    let mut m: i64 = data[0];
    let mut i: usize = 1;
    while i < data.len()
        invariant
            1 <= i <= data@.len(),
            m == seq_min(data@.subrange(0, i as int)),
        decreases data@.len() - i,
    {
        proof {
            assert(data@.subrange(0, i + 1).drop_last() =~= data@.subrange(0, i as int));
            assert(data@.subrange(0, i + 1).last() == data@[i as int]);
        }
        if data[i] < m {
            m = data[i];
        }
        i = i + 1;
    }
    proof {
        assert(data@.subrange(0, data@.len() as int) =~= data@);
    }
    m
}

/// Largest element of a non-empty sequence.
pub open spec fn seq_max(s: Seq<i64>) -> int
    recommends
        s.len() > 0,
    decreases s.len(),
{
    if s.len() <= 1 {
        s[0] as int
    } else {
        let m = seq_max(s.drop_last());
        if s.last() > m {
            s.last() as int
        } else {
            m
        }
    }
}

/// Largest element of a non-empty list.
pub fn max_of(data: &Vec<i64>) -> (m: i64)
    requires
        data@.len() > 0,
    ensures
        m == seq_max(data@),
{
    let mut m: i64 = data[0];
    let mut i: usize = 1;
    while i < data.len()
        invariant
            1 <= i <= data@.len(),
            m == seq_max(data@.subrange(0, i as int)),
        decreases data@.len() - i,
    {
        proof {
            assert(data@.subrange(0, i + 1).drop_last() =~= data@.subrange(0, i as int));
            assert(data@.subrange(0, i + 1).last() == data@[i as int]);
        }
        if data[i] > m {
            m = data[i];
        }
        i = i + 1;
    }
    proof {
        assert(data@.subrange(0, data@.len() as int) =~= data@);
    }
    m
}

/// Smaller of two values.
pub open spec fn min2(a: int, b: int) -> int {
    if a < b {
        a
    } else {
        b
    }
}

/// Sum of a sequence of mathematical integers.
pub open spec fn int_sum(s: Seq<int>) -> int
    decreases s.len(),
{
    if s.len() == 0 {
        0
    } else {
        int_sum(s.drop_last()) + s.last()
    }
}

/// Each sample shifted down to the common minimum and divided by the
/// fixed spread divisor used when the scoring model was trained.
pub open spec fn scaled_col(s: Seq<i64>, m: int) -> Seq<int> {
    Seq::new(s.len(), |i: int| (s[i] - m) / 50)
}

/// Truncated mean of a scaled column.
pub open spec fn norm_mean(s: Seq<i64>, m: int) -> int {
    int_sum(scaled_col(s, m)) / s.len() as int
}

proof fn lemma_sum_congruence(a: Seq<i64>, t: Seq<int>)
    requires
        a.len() == t.len(),
        forall|i: int| 0 <= i < a.len() ==> #[trigger] a[i] == t[i],
    ensures
        seq_sum(a) == int_sum(t),
    decreases a.len(),
{
    if a.len() > 0 {
        assert forall|i: int| 0 <= i < a.drop_last().len() implies #[trigger] a.drop_last()[i]
            == t.drop_last()[i] by {
            assert(a.drop_last()[i] == a[i]);
            assert(t.drop_last()[i] == t[i]);
        }
        lemma_sum_congruence(a.drop_last(), t.drop_last());
    }
}

proof fn lemma_seq_sum_nonneg(s: Seq<i64>)
    requires
        forall|i: int| 0 <= i < s.len() ==> 0 <= #[trigger] s[i],
    ensures
        0 <= seq_sum(s),
    decreases s.len(),
{
    if s.len() > 0 {
        assert forall|i: int| 0 <= i < s.drop_last().len() implies 0 <= #[trigger] s.drop_last()[i] by {
            assert(s.drop_last()[i] == s[i]);
        }
        lemma_seq_sum_nonneg(s.drop_last());
    }
}

/// Shifts every sample down by `m` and divides by the spread divisor.
fn scale_shift(data: &Vec<i64>, m: i64) -> (out: Vec<i64>)
    requires
        all_le(data@, VAL_BOUND as int),
        -VAL_BOUND <= m,
        forall|i: int| 0 <= i < data@.len() ==> m <= #[trigger] data@[i],
    ensures
        out@.len() == data@.len(),
        forall|i: int| 0 <= i < data@.len() ==> #[trigger] out@[i] == scaled_col(
            data@,
            m as int,
        )[i],
        forall|i: int| 0 <= i < out@.len() ==> 0 <= #[trigger] out@[i] <= 0x200_0000_0000,
{
    let mut out: Vec<i64> = Vec::new();
    let mut i: usize = 0;
    while i < data.len()
        invariant
            i <= data@.len(),
            all_le(data@, VAL_BOUND as int),
            -VAL_BOUND <= m,
            forall|k: int| 0 <= k < data@.len() ==> m <= #[trigger] data@[k],
            out@.len() == i,
            forall|k: int| 0 <= k < i ==> #[trigger] out@[k] == scaled_col(data@, m as int)[k],
            forall|k: int| 0 <= k < i ==> 0 <= #[trigger] out@[k] <= 0x200_0000_0000,
        decreases data@.len() - i,
    {
        let d: i64 = data[i] - m;
        let q: i64 = ((d as u64) / 50) as i64;
        proof {
            assert(q <= d) by (nonlinear_arith)
                requires
                    0 <= d,
                    q == (d as int) / 50,
            ;
        }
        out.push(q);
        i = i + 1;
    }
    out
}

/// Normalizes the two feature windows for the scorer: both are shifted
/// by the common minimum, divided by the fixed spread divisor, then
/// mean-centred; the second window is offset a further 3 whole units
/// down so a combined encoding can tell the channels apart. `None`
/// when either window is empty.
pub fn normalize_array(lower_: &Vec<i64>, high_: &Vec<i64>) -> (r: Option<(Vec<i64>, Vec<i64>)>)
    requires
        all_le(lower_@, VAL_BOUND as int),
        all_le(high_@, VAL_BOUND as int),
    ensures
        r is Some <==> (lower_@.len() > 0 && high_@.len() > 0),
        r matches Some(nv) ==> ({
            let m = min2(seq_min(lower_@), seq_min(high_@));
            &&& nv.0@.len() == lower_@.len()
            &&& nv.1@.len() == high_@.len()
            &&& forall|i: int|
                0 <= i < lower_@.len() ==> #[trigger] nv.0@[i] == scaled_col(lower_@, m)[i]
                    - norm_mean(lower_@, m)
            &&& forall|i: int|
                0 <= i < high_@.len() ==> #[trigger] nv.1@[i] == scaled_col(high_@, m)[i] - (
                norm_mean(high_@, m) + 3 * SCALE)
        }),
{
    if lower_.len() == 0 || high_.len() == 0 {
        return None;
    }
    let m0: i64 = min_of(lower_);
    let m1: i64 = min_of(high_);
    let m: i64 = if m0 <= m1 {
        m0
    } else {
        m1
    };
    proof {
        lemma_seq_min_ge(lower_@, VAL_BOUND as int);
        lemma_seq_min_ge(high_@, VAL_BOUND as int);
        assert forall|i: int| 0 <= i < lower_@.len() implies m <= #[trigger] lower_@[i] by {
            lemma_seq_min_le(lower_@, i);
        }
        assert forall|i: int| 0 <= i < high_@.len() implies m <= #[trigger] high_@[i] by {
            lemma_seq_min_le(high_@, i);
        }
    }
    let s0: Vec<i64> = scale_shift(lower_, m);
    let s1: Vec<i64> = scale_shift(high_, m);
    proof {
        assert forall|i: int| 0 <= i < s0@.len() implies -0x4_0000_0000_0000
            <= #[trigger] s0@[i] <= 0x4_0000_0000_0000 by {
            assert(0 <= s0@[i] <= 0x200_0000_0000);
        }
        assert forall|i: int| 0 <= i < s1@.len() implies -0x4_0000_0000_0000
            <= #[trigger] s1@[i] <= 0x4_0000_0000_0000 by {
            assert(0 <= s1@[i] <= 0x200_0000_0000);
        }
        assert forall|i: int| 0 <= i < s0@.len() implies s0@[i] == scaled_col(
            lower_@,
            m as int,
        )[i] by {}
        lemma_sum_congruence(s0@, scaled_col(lower_@, m as int));
        lemma_sum_congruence(s1@, scaled_col(high_@, m as int));
        lemma_seq_sum_nonneg(s0@);
        lemma_seq_sum_nonneg(s1@);
    }
    let a0: i64 = mean_of(s0.as_slice());
    let a1: i64 = mean_of(s1.as_slice());
    let ghost gm: int = m as int;
    proof {
        assert(a0 == norm_mean(lower_@, gm));
        assert(a1 == norm_mean(high_@, gm));
        assert(0 <= a0 <= 0x200_0000_0000) by {
            lemma_mean_bound(s0@, 0x200_0000_0000);
        }
        assert(0 <= a1 <= 0x200_0000_0000) by {
            lemma_mean_bound(s1@, 0x200_0000_0000);
        }
    }
    let off1: i64 = a1 + 3 * SCALE;
    let mut n0: Vec<i64> = Vec::new();
    let mut i: usize = 0;
    while i < s0.len()
        invariant
            i <= s0@.len(),
            n0@.len() == i,
            0 <= a0 <= 0x200_0000_0000,
            forall|k: int| 0 <= k < s0@.len() ==> 0 <= #[trigger] s0@[k] <= 0x200_0000_0000,
            forall|k: int| 0 <= k < i ==> #[trigger] n0@[k] == s0@[k] - a0,
        decreases s0@.len() - i,
    {
        n0.push(s0[i] - a0);
        i = i + 1;
    }
    let mut n1: Vec<i64> = Vec::new();
    let mut j: usize = 0;
    while j < s1.len()
        invariant
            j <= s1@.len(),
            n1@.len() == j,
            0 <= off1 <= 0x200_0000_0000 + 3 * SCALE,
            forall|k: int| 0 <= k < s1@.len() ==> 0 <= #[trigger] s1@[k] <= 0x200_0000_0000,
            forall|k: int| 0 <= k < j ==> #[trigger] n1@[k] == s1@[k] - off1,
        decreases s1@.len() - j,
    {
        n1.push(s1[j] - off1);
        j = j + 1;
    }
    Some((n0, n1))
}


/// A column is never longer than the row list.
pub proof fn lemma_column_len(rows: Seq<Vec<i64>>, c: int)
    ensures
        column(rows, c).len() <= rows.len(),
    decreases rows.len(),
{
    if rows.len() > 0 {
        lemma_column_len(rows.drop_last(), c);
    }
}

/// Appending a row long enough to have a `c`-th entry appends that
/// entry to the column.
pub proof fn lemma_column_push(rows: Seq<Vec<i64>>, row: Vec<i64>, c: int)
    requires
        0 <= c < row@.len(),
    ensures
        column(rows.push(row), c) == column(rows, c).push(row@[c]),
{
    assert(rows.push(row).drop_last() =~= rows);
    assert(rows.push(row).last() == row);
}

} // verus!
