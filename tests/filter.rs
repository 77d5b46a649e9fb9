use rebar::filter::{decide, Filter, FilterRule, Filters};
use rebar::measurement::{Aggregate, AggregateTimes, Measurement};

#[test]
fn later_blacklist_overrides_earlier_whitelist() {
    let mut f = Filter::new();
    f.whitelist("foo").unwrap();
    f.blacklist("foobar").unwrap();
    assert!(!f.accepts("foobar"));
    assert!(f.accepts("foo"));
}

#[test]
fn later_whitelist_overrides_earlier_blacklist() {
    let mut f = Filter::new();
    f.blacklist("foobar").unwrap();
    f.whitelist("foo").unwrap();
    assert!(f.accepts("foobar"));
}

#[test]
fn no_rules_lets_everything_through() {
    assert!(Filter::new().accepts("anything"));
    assert!(Filter::default().accepts(""));
}

#[test]
fn only_blacklists_default_to_pass() {
    let mut f = Filter::new();
    f.blacklist("^a").unwrap();
    assert!(f.accepts("b"));
    assert!(!f.accepts("abc"));
}

#[test]
fn a_whitelist_defaults_to_refuse() {
    let f = Filter::from_pattern("^rust/").unwrap();
    assert!(f.accepts("rust/regex"));
    assert!(!f.accepts("pcre2"));
}

#[test]
fn search_is_unanchored() {
    let f = Filter::from_pattern("regex").unwrap();
    assert!(f.accepts("rust/regex/meta"));
}

#[test]
fn invalid_pattern_is_refused_without_change() {
    let mut f = Filter::new();
    let e = f.whitelist("foo(").unwrap_err();
    assert_eq!(e.pattern, "foo(");
    assert!(f.accepts("x"));
    assert!(FilterRule::new("(", true).is_err());
    assert!(Filter::from_pattern("[").is_err());
}

#[test]
fn rules_keep_their_parts() {
    let r = FilterRule::new("ab+", true).unwrap();
    assert_eq!(r.pattern(), "ab+");
    assert!(r.is_blacklist());
    let mut f = Filter::new();
    f.add(r);
    assert!(!f.accepts("xabbb"));
    assert!(f.accepts("xa"));
}

#[test]
fn decision_from_kinds_and_matches() {
    assert!(decide(&[], &[]));
    assert!(!decide(&[false, true], &[true, true]));
    assert!(decide(&[true, false], &[true, true]));
    assert!(!decide(&[false], &[false]));
    assert!(decide(&[true], &[false]));
}

fn measurement(name: &str, model: &str, engine: &str) -> Measurement {
    Measurement {
        name: name.to_string(),
        model: model.to_string(),
        rebar_version: "0.1.0".to_string(),
        engine: engine.to_string(),
        engine_version: "1".to_string(),
        err: None,
        iters: 1,
        total: 1,
        aggregate: Aggregate::new(AggregateTimes::default(), None),
    }
}

#[test]
fn filters_check_name_engine_and_model() {
    let mut fs = Filters {
        name: Filter::new(),
        model: Filter::new(),
        engine: Filter::new(),
        ignore_missing_engines: false,
    };
    let m = measurement("curated/04-ruff", "count", "rust/regex");
    assert!(fs.accepts(&m));
    fs.engine.whitelist("^pcre2$").unwrap();
    assert!(!fs.accepts(&m));
    fs.engine.whitelist("^rust/").unwrap();
    assert!(fs.accepts(&m));
    fs.model.blacklist("count").unwrap();
    assert!(!fs.accepts(&m));
}
