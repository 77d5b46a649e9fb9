//! Reduction of raw sample durations to aggregate statistics.
//!
//! Durations are whole nanoseconds; each statistic is rounded down to a whole
//! nanosecond.
use vstd::prelude::*;

use crate::measurement::AggregateTimes;

verus! {

/// The values are in ascending order.
pub open spec fn sorted(s: Seq<u64>) -> bool {
    forall|i: int, j: int| 0 <= i <= j < s.len() ==> s[i] <= s[j]
}

/// `t` is `s` in ascending order.
pub open spec fn is_sorted_perm(s: Seq<u64>, t: Seq<u64>) -> bool {
    sorted(t) && t.to_multiset() == s.to_multiset()
}

/// The sum of the values.
pub open spec fn sum(s: Seq<u64>) -> int
    decreases s.len(),
{
    if s.len() == 0 {
        0
    } else {
        sum(s.drop_last()) + s.last()
    }
}

/// The arithmetic mean, rounded down.
pub open spec fn mean_of(s: Seq<u64>) -> int {
    sum(s) / s.len() as int
}

/// The middle value of sorted values; for an even count, the mean of the two
/// middle values, rounded down.
pub open spec fn median_of_sorted(t: Seq<u64>) -> int {
    let h = (t.len() / 2) as int;
    if t.len() % 2 == 1 {
        t[h] as int
    } else {
        (t[h - 1] + t[h]) / 2
    }
}

/// The distance between two values.
pub open spec fn distance(x: int, m: int) -> int {
    if x >= m {
        x - m
    } else {
        m - x
    }
}

/// The absolute deviation of each value from `m`.
pub open spec fn deviations(s: Seq<u64>, m: int) -> Seq<u64> {
    s.map_values(|x: u64| distance(x as int, m) as u64)
}

/// The sum of squared deviations from `m`, saturating at `u128::MAX`.
pub open spec fn squares_sum(s: Seq<u64>, m: int) -> int
    decreases s.len(),
{
    if s.len() == 0 {
        0
    } else {
        let t = squares_sum(s.drop_last(), m) + distance(s.last() as int, m) * distance(
            s.last() as int,
            m,
        );
        if t > u128::MAX {
            u128::MAX as int
        } else {
            t
        }
    }
}

/// `r` is the square root of `v`, rounded down.
pub open spec fn is_isqrt(v: int, r: int) -> bool {
    r >= 0 && r * r <= v < (r + 1) * (r + 1)
}

/// The statistics of sorted samples `t`, where `d` is their deviations from the
/// median, sorted.
pub open spec fn stats_of(t: Seq<u64>, d: Seq<u64>, r: AggregateTimes) -> bool {
    &&& r.median == median_of_sorted(t)
    &&& r.mad == median_of_sorted(d)
    &&& r.mean == mean_of(t)
    &&& is_isqrt(squares_sum(t, mean_of(t)) / t.len() as int, r.stddev as int)
    &&& r.min == t[0]
    &&& r.max == t[t.len() - 1]
}

/// The aggregate statistics of the samples `s`.
pub open spec fn reduces_to(s: Seq<u64>, r: AggregateTimes) -> bool {
    exists|t: Seq<u64>, d: Seq<u64>|
        is_sorted_perm(s, t) && is_sorted_perm(deviations(t, median_of_sorted(t)), d)
            && #[trigger] stats_of(t, d, r)
}

/// Relies on `slice::sort_unstable`: the values end up in ascending order, and
/// are the same values as before.
#[verifier::external_body]
fn sort_nanos(v: &mut Vec<u64>)
    ensures
        final(v)@.to_multiset() == old(v)@.to_multiset(),
        sorted(final(v)@),
{
    v.sort_unstable();
}

/// Sum is bounded by the count times the largest value.
proof fn lemma_sum_bounds(s: Seq<u64>, lo: int, hi: int)
    requires
        forall|i: int| 0 <= i < s.len() ==> lo <= #[trigger] s[i] <= hi,
    ensures
        s.len() * lo <= sum(s) <= s.len() * hi,
    decreases s.len(),
{
    if s.len() > 0 {
        let p = s.drop_last();
        assert forall|i: int| 0 <= i < p.len() implies lo <= #[trigger] p[i] <= hi by {
            assert(p[i] == s[i]);
        }
        lemma_sum_bounds(p, lo, hi);
        assert(s.last() == s[s.len() - 1]);
        assert(s.len() * lo == p.len() * lo + lo) by (nonlinear_arith)
            requires
                s.len() == p.len() + 1,
        ;
        assert(s.len() * hi == p.len() * hi + hi) by (nonlinear_arith)
            requires
                s.len() == p.len() + 1,
        ;
    }
}

/// The mean of values lies between their least and greatest.
pub proof fn lemma_mean_between(s: Seq<u64>, lo: int, hi: int)
    requires
        s.len() > 0,
        forall|i: int| 0 <= i < s.len() ==> lo <= #[trigger] s[i] <= hi,
    ensures
        lo <= mean_of(s) <= hi,
{
    lemma_sum_bounds(s, lo, hi);
    let n = s.len() as int;
    let m = sum(s);
    assert(lo <= m / n <= hi) by (nonlinear_arith)
        requires
            n > 0,
            n * lo <= m <= n * hi,
    ;
}

/// The sum of the values.
fn total(t: &Vec<u64>) -> (r: u128)
    ensures
        r == sum(t@),
{
    let mut acc: u128 = 0;
    let mut i: usize = 0;
    while i < t.len()
        invariant
            i <= t@.len(),
            acc == sum(t@.take(i as int)),
        decreases t.len() - i,
    {
        proof {
            let p = t@.take(i as int);
            lemma_sum_bounds(p, 0, u64::MAX as int);
            assert(t@.take(i + 1).drop_last() =~= p);
            assert(p.len() * (u64::MAX as int) + u64::MAX <= u128::MAX) by (nonlinear_arith)
                requires
                    p.len() < 0x1_0000_0000_0000_0000int,
            ;
        }
        acc = acc + t[i] as u128;
        i = i + 1;
    }
    assert(t@.take(i as int) =~= t@);
    acc
}

/// The median of sorted values.
fn median_sorted(t: &Vec<u64>) -> (r: u64)
    requires
        t@.len() > 0,
    ensures
        r == median_of_sorted(t@),
{
    let n = t.len();
    if n % 2 == 1 {
        t[n / 2]
    } else {
        ((t[n / 2 - 1] as u128 + t[n / 2] as u128) / 2) as u64
    }
}

/// The square root of `v`, rounded down.
fn isqrt(v: u128) -> (r: u64)
    ensures
        is_isqrt(v as int, r as int),
{
    let mut lo: u128 = 0;
    let mut hi: u128 = 0x1_0000_0000_0000_0000;
    proof {
        assert(hi * hi > u128::MAX) by (nonlinear_arith)
            requires
                hi == 0x1_0000_0000_0000_0000int,
        ;
    }
    while hi - lo > 1
        invariant
            lo < hi <= 0x1_0000_0000_0000_0000u128,
            lo * lo <= v,
            v < hi * hi,
        decreases hi - lo,
    {
        let mid = lo + (hi - lo) / 2;
        proof {
            assert(mid * mid < 0x1_0000_0000_0000_0000int * 0x1_0000_0000_0000_0000int)
                by (nonlinear_arith)
                requires
                    mid < 0x1_0000_0000_0000_0000int,
            ;
        }
        if mid * mid <= v {
            lo = mid;
        } else {
            hi = mid;
        }
    }
    assert(hi == lo + 1);
    lo as u64
}

/// The deviations of `t` from `m`.
fn deviations_from(t: &Vec<u64>, m: u64) -> (r: Vec<u64>)
    ensures
        r@ == deviations(t@, m as int),
{
    let mut d: Vec<u64> = Vec::new();
    let mut i: usize = 0;
    while i < t.len()
        invariant
            i <= t@.len(),
            d@ == deviations(t@.take(i as int), m as int),
        decreases t.len() - i,
    {
        let x = t[i];
        let dev = if x >= m {
            x - m
        } else {
            m - x
        };
        d.push(dev);
        i = i + 1;
        assert(d@ =~= deviations(t@.take(i as int), m as int));
    }
    assert(t@.take(i as int) =~= t@);
    d
}

/// The sum of squared deviations of `t` from `m`, saturating.
fn squared_deviations(t: &Vec<u64>, m: u64) -> (r: u128)
    ensures
        r == squares_sum(t@, m as int),
{
    let mut acc: u128 = 0;
    let mut i: usize = 0;
    while i < t.len()
        invariant
            i <= t@.len(),
            acc == squares_sum(t@.take(i as int), m as int),
        decreases t.len() - i,
    {
        let x = t[i];
        let dev = if x >= m {
            x - m
        } else {
            m - x
        };
        proof {
            assert(t@.take(i + 1).drop_last() =~= t@.take(i as int));
            assert((dev as int) * (dev as int) <= u64::MAX as int * u64::MAX as int)
                by (nonlinear_arith)
                requires
                    dev <= u64::MAX,
            ;
        }
        let sq = (dev as u128) * (dev as u128);
        if acc > u128::MAX - sq {
            acc = u128::MAX;
        } else {
            acc = acc + sq;
        }
        i = i + 1;
    }
    assert(t@.take(i as int) =~= t@);
    acc
}

/// Reduces sample durations to aggregate statistics; `None` when there are no
/// samples.
pub fn reduce(samples: Vec<u64>) -> (r: Option<AggregateTimes>)
    ensures
        match r {
            None => samples@.len() == 0,
            Some(times) => samples@.len() > 0 && reduces_to(samples@, times),
        },
{
    if samples.len() == 0 {
        return None;
    }
    let mut t = samples;
    sort_nanos(&mut t);
    proof {
        t@.to_multiset_ensures();
        samples@.to_multiset_ensures();
    }
    let n = t.len();
    let median = median_sorted(&t);
    let mut devs = deviations_from(&t, median);
    sort_nanos(&mut devs);
    proof {
        devs@.to_multiset_ensures();
        deviations(t@, median as int).to_multiset_ensures();
    }
    let mad = median_sorted(&devs);
    let sum = total(&t);
    proof {
        lemma_mean_between(t@, 0, u64::MAX as int);
    }
    let mean = (sum / (n as u128)) as u64;
    let var = squared_deviations(&t, mean) / (n as u128);
    let stddev = isqrt(var);
    let times = AggregateTimes { median, mad, mean, stddev, min: t[0], max: t[n - 1] };
    assert(stats_of(t@, devs@, times));
    Some(times)
}

/// The statistics of non-empty samples keep their order: the least is at most
/// the median and the mean, which are at most the greatest.
pub proof fn lemma_order_of_statistics(s: Seq<u64>, r: AggregateTimes)
    requires
        s.len() > 0,
        reduces_to(s, r),
    ensures
        r.min <= r.median <= r.max,
        r.min <= r.mean <= r.max,
        r.mad >= 0,
        r.mad <= r.max - r.min,
        r.min <= r.max,
{
    let (t, d) = choose|t: Seq<u64>, d: Seq<u64>|
        is_sorted_perm(s, t) && is_sorted_perm(deviations(t, median_of_sorted(t)), d)
            && #[trigger] stats_of(t, d, r);
    t.to_multiset_ensures();
    s.to_multiset_ensures();
    assert(t.len() == s.len());
    let n = t.len() as int;
    assert forall|i: int| 0 <= i < n implies t[0] <= #[trigger] t[i] <= t[n - 1] by {}
    lemma_mean_between(t, t[0] as int, t[n - 1] as int);
    if n % 2 == 0 {
        assert(t[0] <= t[n / 2 - 1] <= t[n / 2] <= t[n - 1]);
    } else {
        assert(t[0] <= t[n / 2] <= t[n - 1]);
    }
    let m = median_of_sorted(t);
    let devs = deviations(t, m);
    let bound = t[n - 1] - t[0];
    assert forall|j: int| 0 <= j < devs.len() implies #[trigger] devs[j] <= bound by {
        assert(t[0] <= t[j] <= t[n - 1]);
    }
    devs.to_multiset_ensures();
    d.to_multiset_ensures();
    assert(d.len() == devs.len());
    assert forall|i: int| 0 <= i < d.len() implies #[trigger] d[i] <= bound by {
        assert(d.contains(d[i]));
        assert(d.to_multiset().count(d[i]) > 0);
        assert(d.to_multiset() == devs.to_multiset());
        assert(devs.to_multiset().count(d[i]) > 0);
        assert(devs.contains(d[i]));
        let j = choose|j: int| 0 <= j < devs.len() && devs[j] == d[i];
        assert(devs[j] <= bound);
    }
    let h = (n / 2) as int;
    if n % 2 == 0 {
        assert(d[h - 1] <= bound && d[h] <= bound);
    } else {
        assert(d[h] <= bound);
    }
}

} // verus!
