use rebar::klv::{Benchmark, KlvErrorKind, RegexConfig};

fn sample_request() -> Benchmark {
    Benchmark {
        name: "curated/01-literal".to_string(),
        model: "count".to_string(),
        regex: RegexConfig {
            patterns: vec!["foo".to_string(), "b:a\nr".to_string()],
            case_insensitive: true,
            unicode: false,
        },
        haystack: vec![0xFF, b'\n', b':', b'x'],
        max_iters: 3,
        max_warmup_iters: 1,
        max_time: 2_000_000_000,
        max_warmup_time: 1_000,
    }
}

fn kind_of(bytes: &[u8]) -> KlvErrorKind {
    Benchmark::read(bytes).unwrap_err().kind
}

#[test]
fn round_trip_keeps_every_field() {
    let b = sample_request();
    let mut out = vec![];
    b.write(&mut out);
    let back = Benchmark::read(&out).unwrap();
    assert_eq!(back.name, b.name);
    assert_eq!(back.model, b.model);
    assert_eq!(back.regex.patterns, b.regex.patterns);
    assert_eq!(back.regex.case_insensitive, b.regex.case_insensitive);
    assert_eq!(back.regex.unicode, b.regex.unicode);
    assert_eq!(back.haystack, b.haystack);
    assert_eq!(back.max_iters, 3);
    assert_eq!(back.max_warmup_iters, 1);
    assert_eq!(back.max_time, 2_000_000_000);
    assert_eq!(back.max_warmup_time, 1_000);
}

#[test]
fn encoding_order_is_fixed() {
    let b = Benchmark {
        name: "n".to_string(),
        model: "m".to_string(),
        regex: RegexConfig {
            patterns: vec!["alpha".to_string(), "beta".to_string()],
            case_insensitive: false,
            unicode: true,
        },
        haystack: b"hay".to_vec(),
        max_iters: 10,
        max_warmup_iters: 0,
        max_time: 5,
        max_warmup_time: 7,
    };
    let mut out = vec![];
    b.write(&mut out);
    let expected = "name:1:n\nmodel:1:m\ncase-insensitive:5:false\nunicode:4:true\n\
                    max-iters:2:10\nmax-warmup-iters:1:0\nmax-time:1:5\n\
                    max-warmup-time:1:7\npattern:5:alpha\npattern:4:beta\nhaystack:3:hay\n";
    assert_eq!(String::from_utf8(out).unwrap(), expected);
}

#[test]
fn write_appends_to_existing_bytes() {
    let b = Benchmark::default();
    let mut out = b"prefix".to_vec();
    b.write(&mut out);
    assert!(out.starts_with(b"prefix"));
    assert!(out.ends_with(b"haystack:0:\n"));
}

#[test]
fn empty_stream_is_an_empty_request() {
    let b = Benchmark::read(b"").unwrap();
    assert_eq!(b.name, "");
    assert_eq!(b.model, "");
    assert!(b.regex.patterns.is_empty());
    assert!(b.haystack.is_empty());
    assert_eq!(b.max_iters, 0);
}

#[test]
fn value_may_hold_newlines_and_colons() {
    let b = Benchmark::read(b"haystack:5:a\n:b\n\n").unwrap();
    assert_eq!(b.haystack, b"a\n:b\n".to_vec());
}

#[test]
fn unknown_keys_are_skipped() {
    let b = Benchmark::read(b"future-key:3:abc\nname:2:hi\n").unwrap();
    assert_eq!(b.name, "hi");
}

#[test]
fn rejects_missing_first_colon() {
    assert_eq!(kind_of(b"name"), KlvErrorKind::MissingFirstColon);
    assert!(Benchmark::read(b"name").unwrap_err().key.is_none());
}

#[test]
fn rejects_missing_second_colon() {
    let e = Benchmark::read(b"name:4").unwrap_err();
    assert_eq!(e.kind, KlvErrorKind::MissingSecondColon);
    assert_eq!(e.key, Some(b"name".to_vec()));
}

#[test]
fn rejects_non_numeric_length() {
    assert_eq!(kind_of(b"name:x:abcd\n"), KlvErrorKind::InvalidLength);
    assert_eq!(kind_of(b"name::\n"), KlvErrorKind::InvalidLength);
    assert_eq!(
        kind_of(b"name:99999999999999999999:a\n"),
        KlvErrorKind::InvalidLength
    );
}

#[test]
fn rejects_length_past_end() {
    assert_eq!(kind_of(b"name:10:abc\n"), KlvErrorKind::LengthExceedsInput);
}

#[test]
fn rejects_missing_trailing_newline() {
    assert_eq!(kind_of(b"name:3:abc"), KlvErrorKind::MissingTerminator);
    assert_eq!(kind_of(b"name:3:abcX"), KlvErrorKind::MissingTerminator);
}

#[test]
fn rejects_badly_typed_values() {
    assert_eq!(kind_of(b"unicode:3:yes\n"), KlvErrorKind::InvalidValue);
    assert_eq!(kind_of(b"max-iters:2:-1\n"), KlvErrorKind::InvalidValue);
    assert_eq!(kind_of(b"name:1:\xFF\n"), KlvErrorKind::InvalidValue);
}

#[test]
fn later_records_override_earlier_ones() {
    let b = Benchmark::read(b"max-time:2:10\nmax-time:2:20\n").unwrap();
    assert_eq!(b.max_time, 20);
}

#[test]
fn key_that_is_not_utf8_is_rejected() {
    let e = Benchmark::read(b"na\xFFme:1:x\n").unwrap_err();
    assert_eq!(e.kind, KlvErrorKind::KeyNotUtf8);
    assert_eq!(e.key, Some(b"na\xFFme".to_vec()));
}

#[test]
fn errors_name_the_offending_key() {
    let e = Benchmark::read(b"name:1:a\nunicode:3:yes\n").unwrap_err();
    assert_eq!(e.key, Some(b"unicode".to_vec()));
    let e = Benchmark::read(b"max-time:x:1\n").unwrap_err();
    assert_eq!(e.key, Some(b"max-time".to_vec()));
}
