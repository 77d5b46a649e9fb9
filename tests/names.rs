use rebar::args::{Color, Units, Usage};
use rebar::definition::DefinitionName;
use rebar::grouped::ByBenchmarkName;
use rebar::klv::{Benchmark, RegexConfig};
use rebar::measurement::{Aggregate, AggregateTimes, Measurement};
use rebar::Stat;

#[test]
fn statistic_names_round_trip() {
    for s in [Stat::Median, Stat::Mad, Stat::Mean, Stat::Stddev, Stat::Min, Stat::Max] {
        assert_eq!(Stat::from_name(s.name()), Some(s));
    }
    assert_eq!(Stat::from_name("average"), None);
    assert_eq!(Stat::default(), Stat::Median);
}

#[test]
fn unit_and_color_names() {
    assert_eq!(Units::from_name("time"), Some(Units::Time));
    assert_eq!(Units::from_name("throughput"), Some(Units::Throughput));
    assert_eq!(Units::from_name("bytes"), None);
    assert_eq!(Units::default(), Units::Throughput);
    assert_eq!(Color::from_name("never"), Some(Color::Never));
    assert_eq!(Color::from_name("auto"), Some(Color::Auto));
    assert_eq!(Color::from_name("always"), Some(Color::Always));
    assert_eq!(Color::from_name("sometimes"), None);
    assert_eq!(Color::default(), Color::Auto);
}

#[test]
fn one_pattern_or_the_count() {
    let mut r = RegexConfig { patterns: vec!["a".to_string()], case_insensitive: false, unicode: false };
    assert_eq!(r.one(), Ok(&"a".to_string()));
    r.patterns.push("b".to_string());
    assert_eq!(r.one(), Err(2));
    r.patterns.clear();
    assert_eq!(r.one(), Err(0));
}

#[test]
fn haystack_as_text_only_when_utf8() {
    let mut b = Benchmark::default();
    b.haystack = "snow ☃".as_bytes().to_vec();
    assert_eq!(b.haystack_str(), Some("snow ☃".to_string()));
    b.haystack = vec![0xFF];
    assert_eq!(b.haystack_str(), None);
}

#[test]
fn usage_and_definition_name_parts() {
    let u = Usage::new("-d, --dir <directory>", "The directory", "Longer text.");
    assert_eq!(u.format, "-d, --dir <directory>");
    assert_eq!(u.short, "The directory");
    assert_eq!(u.long, "Longer text.");
    let n = DefinitionName { full: "curated/01".to_string(), group: "curated".to_string(), local: "01".to_string() };
    assert_eq!(n.as_str(), "curated/01");
}

fn m(name: &str, engine: &str) -> Measurement {
    Measurement {
        name: name.to_string(),
        model: "count".to_string(),
        rebar_version: "0".to_string(),
        engine: engine.to_string(),
        engine_version: "1".to_string(),
        err: None,
        iters: 1,
        total: 1,
        aggregate: Aggregate::new(AggregateTimes::default(), None),
    }
}

#[test]
fn partition_keeps_order_in_both_parts() {
    let ms = vec![m("a", "x"), m("b", "x"), m("c", "x"), m("b", "y")];
    let g = ByBenchmarkName::new(&ms).unwrap();
    let (yes, no) = g.partition(|g| g.by_engine.len() == 1);
    let names = |b: &ByBenchmarkName| b.groups.iter().map(|g| g.name.clone()).collect::<Vec<_>>();
    assert_eq!(names(&yes), vec!["a".to_string(), "c".to_string()]);
    assert_eq!(names(&no), vec!["b".to_string()]);
}

#[test]
fn short_usage_table_aligns_descriptions() {
    let us = [Usage::new("-a", "first", ""), Usage::new("--long <x>", "second", "")];
    assert_eq!(
        Usage::short(&us),
        "    -a          first\n    --long <x>  second\n"
    );
    assert_eq!(Usage::short(&[]), "");
}

#[test]
fn version_with_and_without_revision() {
    assert_eq!(rebar::args::version("0.1.0", None), "0.1.0");
    assert_eq!(rebar::args::version("0.1.0", Some("abc123")), "0.1.0 (rev abc123)");
}
