use rebar::human::ShortHumanDuration;

fn text(nanos: u64) -> String {
    String::from_utf8(ShortHumanDuration { nanos }.to_bytes()).unwrap()
}

fn nanos(s: &str) -> Option<u64> {
    ShortHumanDuration::parse(s.as_bytes()).map(|d| d.nanos)
}

#[test]
fn formats_in_the_largest_fitting_unit() {
    assert_eq!(text(500), "500.00ns");
    assert_eq!(text(12_340_000), "12.34ms");
    assert_eq!(text(1_500_000_000), "1.50s");
    assert_eq!(text(950), "0.95us");
    assert_eq!(text(0), "0.00ns");
    assert_eq!(text(12_345_000), "12.35ms");
}

#[test]
fn parses_each_unit() {
    assert_eq!(nanos("12.34ms"), Some(12_340_000));
    assert_eq!(nanos("500.00ns"), Some(500));
    assert_eq!(nanos("1.50s"), Some(1_500_000_000));
    assert_eq!(nanos("3s"), Some(3_000_000_000));
    assert_eq!(nanos(".5us"), Some(500));
    assert_eq!(nanos("2.us"), Some(2_000));
    assert_eq!(nanos("0"), Some(0));
}

#[test]
fn refuses_other_forms() {
    assert_eq!(nanos(""), None);
    assert_eq!(nanos("ms"), None);
    assert_eq!(nanos("12"), None);
    assert_eq!(nanos("1.2.3ms"), None);
    assert_eq!(nanos("1h"), None);
    assert_eq!(nanos("."), None);
    assert_eq!(nanos("99999999999999999999s"), None);
}

#[test]
fn written_durations_read_back() {
    for v in [1u64, 999, 12_340_000, 3_000_000_000, 42_000] {
        let t = text(v);
        let back = nanos(&t).unwrap();
        assert_eq!(text(back), t);
    }
}
