use rebar::measurement::{Aggregate, AggregateTimes, Throughput};
use rebar::reduce::reduce;

#[test]
fn odd_count_statistics() {
    let t = reduce(vec![3, 1, 2]).unwrap();
    assert_eq!(t.median, 2);
    assert_eq!(t.mean, 2);
    assert_eq!(t.min, 1);
    assert_eq!(t.max, 3);
    assert_eq!(t.mad, 1);
    // deviations from the mean: 1, 1, 0; variance 2/3; root rounded down
    assert_eq!(t.stddev, 0);
}

#[test]
fn even_count_median_is_the_mean_of_the_middle_two() {
    let t = reduce(vec![4, 1, 3, 2]).unwrap();
    assert_eq!(t.median, 2);
    let t = reduce(vec![10, 20]).unwrap();
    assert_eq!(t.median, 15);
}

#[test]
fn population_standard_deviation() {
    let t = reduce(vec![2, 4, 4, 4, 5, 5, 7, 9]).unwrap();
    assert_eq!(t.mean, 5);
    assert_eq!(t.stddev, 2);
    assert_eq!(t.median, 4);
    assert_eq!(t.mad, 1);
}

#[test]
fn statistics_stay_between_the_extremes() {
    let t = reduce(vec![100, 1, 50, 7, 7, 1000]).unwrap();
    assert!(t.min <= t.median && t.median <= t.max);
    assert!(t.min <= t.mean && t.mean <= t.max);
    assert_eq!((t.min, t.max), (1, 1000));
}

#[test]
fn no_samples_is_no_aggregate() {
    assert!(reduce(vec![]).is_none());
}

#[test]
fn large_durations_do_not_overflow() {
    let t = reduce(vec![u64::MAX, u64::MAX]).unwrap();
    assert_eq!(t.mean, u64::MAX);
    assert_eq!(t.median, u64::MAX);
    assert_eq!(t.stddev, 0);
}

#[test]
fn throughput_present_only_with_a_haystack_length() {
    let times = AggregateTimes { median: 1_000, mad: 0, mean: 2_000, stddev: 0, min: 500, max: 4_000 };
    let a = Aggregate::new(times, Some(1_000));
    let t = a.tputs.unwrap();
    assert_eq!(t.len, 1_000);
    assert_eq!(t.median.bytes_per_second, 1_000_000_000);
    assert_eq!(t.mean.bytes_per_second, 500_000_000);
    assert_eq!(t.min.bytes_per_second, 2_000_000_000);
    assert_eq!(t.mad.bytes_per_second, u128::MAX);
    assert!(Aggregate::new(times, Some(0)).tputs.is_none());
    assert!(Aggregate::new(times, None).tputs.is_none());
    assert_eq!(Aggregate::new(times, None).times, times);
}

#[test]
fn throughput_rounds_down() {
    assert_eq!(Throughput::new(10, 3).bytes_per_second, 3_333_333_333);
    assert_eq!(Throughput::from_bytes_per_second(42).bytes_per_second, 42);
}
