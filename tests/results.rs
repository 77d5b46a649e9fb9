use rebar::results::{parse_samples, write_sample, SampleErrorKind};

#[test]
fn parses_one_sample_per_line() {
    let v = parse_samples(b"10,4\n25,4\n", 4).unwrap();
    assert_eq!(v, vec![10, 25]);
}

#[test]
fn zero_duration_becomes_one_nanosecond() {
    let v = parse_samples(b"0,4\n7,4\n", 4).unwrap();
    assert_eq!(v, vec![1, 7]);
}

#[test]
fn last_line_needs_no_terminator_and_crlf_is_accepted() {
    let v = parse_samples(b"3,1\r\n4,1", 1).unwrap();
    assert_eq!(v, vec![3, 4]);
}

#[test]
fn empty_stream_has_no_samples() {
    assert!(parse_samples(b"", 0).unwrap().is_empty());
}

#[test]
fn count_mismatch_fails_the_whole_run() {
    let e = parse_samples(b"10,4\n10,5\n", 4).unwrap_err();
    assert_eq!(e.kind, SampleErrorKind::CountMismatch);
    assert_eq!(e.line, b"10,5".to_vec());
}

#[test]
fn malformed_lines_fail() {
    assert_eq!(parse_samples(b"10\n", 0).unwrap_err().kind, SampleErrorKind::MissingComma);
    assert_eq!(parse_samples(b"x,0\n", 0).unwrap_err().kind, SampleErrorKind::InvalidDuration);
    assert_eq!(parse_samples(b"1,y\n", 0).unwrap_err().kind, SampleErrorKind::InvalidCount);
    assert_eq!(parse_samples(b"1,0\n\n", 0).unwrap_err().kind, SampleErrorKind::MissingComma);
}

#[test]
fn sample_lines_are_written_in_decimal() {
    let mut out = vec![];
    write_sample(&mut out, 1234, 0);
    write_sample(&mut out, 5, 17);
    assert_eq!(out, b"1234,0\n5,17\n".to_vec());
    assert_eq!(parse_samples(&out, 0).unwrap_err().kind, SampleErrorKind::CountMismatch);
}
