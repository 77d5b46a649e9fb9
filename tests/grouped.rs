use rebar::grouped::{select_measurements, ByBenchmarkName, GroupError, Ratio};
use rebar::measurement::{Aggregate, AggregateTimes, Measurement};
use rebar::filter::{Filter, Filters};
use rebar::Stat;

fn m(name: &str, engine: &str, version: &str, median: u64) -> Measurement {
    let times = AggregateTimes { median, mad: 0, mean: median, stddev: 0, min: median, max: median };
    Measurement {
        name: name.to_string(),
        model: "count".to_string(),
        rebar_version: "0.1.0".to_string(),
        engine: engine.to_string(),
        engine_version: version.to_string(),
        err: None,
        iters: 10,
        total: 100,
        aggregate: Aggregate::new(times, None),
    }
}

fn geomean(ratios: &[Ratio]) -> f64 {
    let n = ratios.len() as f64;
    ratios.iter().map(|r| (r.num as f64 / r.den as f64).powf(1.0 / n)).product()
}

#[test]
fn ranking_two_engines_two_benchmarks() {
    let ms = vec![m("X", "A", "1", 10), m("X", "B", "2", 20), m("Y", "A", "1", 30), m("Y", "B", "2", 20)];
    let g = ByBenchmarkName::new(&ms).unwrap();
    let ss = g.ranking(Stat::Median);
    assert_eq!(ss.len(), 2);
    assert_eq!(ss[0].name, "A");
    assert_eq!(ss[0].version, "1");
    assert_eq!(ss[0].ratios, vec![Ratio { num: 10, den: 10 }, Ratio { num: 30, den: 20 }]);
    assert_eq!(ss[0].count, 2);
    assert_eq!(ss[1].name, "B");
    assert_eq!(ss[1].ratios, vec![Ratio { num: 20, den: 10 }, Ratio { num: 20, den: 20 }]);
    let a = geomean(&ss[0].ratios);
    let b = geomean(&ss[1].ratios);
    assert!((a - 1.2247).abs() < 1e-4);
    assert!((b - 1.4142).abs() < 1e-4);
    assert!(a < b);
}

#[test]
fn groups_keep_order_of_first_appearance() {
    let ms = vec![m("Y", "A", "1", 1), m("X", "A", "1", 2), m("Y", "B", "1", 3)];
    let g = ByBenchmarkName::new(&ms).unwrap();
    assert_eq!(g.groups.len(), 2);
    assert_eq!(g.groups[0].name, "Y");
    assert_eq!(g.groups[0].by_engine.len(), 2);
    assert_eq!(g.groups[1].name, "X");
    assert_eq!(g.engine_names(), vec!["A".to_string(), "B".to_string()]);
}

#[test]
fn duplicate_engine_in_a_benchmark_is_an_error() {
    let ms = vec![m("X", "A", "1", 1), m("X", "A", "1", 2)];
    match ByBenchmarkName::new(&ms) {
        Err(GroupError::Duplicate { name, engine }) => {
            assert_eq!(name, "X");
            assert_eq!(engine, "A");
        }
        other => panic!("unexpected: {:?}", other.map(|g| g.groups.len())),
    }
}

#[test]
fn mismatched_versions_are_an_error() {
    let ms = vec![m("X", "A", "1", 1), m("Y", "A", "2", 2)];
    match ByBenchmarkName::new(&ms) {
        Err(GroupError::VersionMismatch { engine, first, second }) => {
            assert_eq!(engine, "A");
            assert_eq!(first, "1");
            assert_eq!(second, "2");
        }
        other => panic!("unexpected: {:?}", other.map(|g| g.groups.len())),
    }
}

#[test]
fn best_and_ratios_within_a_group() {
    let ms = vec![m("X", "A", "1", 30), m("X", "B", "1", 10), m("X", "C", "1", 10)];
    let g = ByBenchmarkName::new(&ms).unwrap();
    let group = &g.groups[0];
    assert_eq!(group.best(Stat::Median), "B");
    assert_eq!(group.ratio("A", Stat::Median), Some(Ratio { num: 30, den: 10 }));
    assert_eq!(group.ratio("B", Stat::Median), Some(Ratio { num: 10, den: 10 }));
    assert_eq!(group.ratio("Z", Stat::Median), None);
}

fn no_filters() -> Filters {
    Filters { name: Filter::new(), model: Filter::new(), engine: Filter::new(), ignore_missing_engines: false }
}

#[test]
fn selection_skips_errors_and_filtered_measurements() {
    let mut bad = m("X", "C", "1", 5);
    bad.err = Some("failed".to_string());
    let ms = vec![m("X", "A", "1", 1), bad, m("Y", "B", "1", 2)];
    let mut fs = no_filters();
    fs.engine.blacklist("^B$").unwrap();
    let v = select_measurements(&ms, &fs, false).unwrap();
    assert_eq!(v.len(), 1);
    assert_eq!(v[0].engine, "A");
}

#[test]
fn selection_rejects_duplicates() {
    let ms = vec![m("X", "A", "1", 1), m("X", "A", "1", 2)];
    assert!(matches!(select_measurements(&ms, &no_filters(), false), Err(GroupError::Duplicate { .. })));
}

#[test]
fn intersection_keeps_benchmarks_with_the_most_engines() {
    let ms = vec![m("X", "A", "1", 1), m("X", "B", "1", 1), m("Y", "A", "1", 1), m("Z", "A", "1", 1), m("Z", "B", "1", 1)];
    let v = select_measurements(&ms, &no_filters(), true).unwrap();
    let names: Vec<&str> = v.iter().map(|m| m.name.as_str()).collect();
    assert_eq!(names, vec!["X", "X", "Z", "Z"]);
    let all = select_measurements(&ms, &no_filters(), false).unwrap();
    assert_eq!(all.len(), 5);
}

#[test]
fn ties_go_to_the_first_engine_name() {
    let ms = vec![m("X", "B", "1", 10), m("X", "A", "1", 10), m("X", "C", "1", 20)];
    let g = ByBenchmarkName::new(&ms).unwrap();
    assert_eq!(g.groups[0].best(Stat::Median), "A");
}

#[test]
fn engine_names_are_sorted_and_unique() {
    let ms = vec![m("X", "b", "1", 1), m("X", "a", "1", 1), m("Y", "c", "1", 1), m("Y", "a", "1", 1)];
    let g = ByBenchmarkName::new(&ms).unwrap();
    assert_eq!(g.engine_names(), vec!["a".to_string(), "b".to_string(), "c".to_string()]);
}
