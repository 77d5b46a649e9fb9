use rebar::klv::Benchmark;
use rebar::results::{parse_samples, write_sample, SampleErrorKind};
use rebar::supervisor::{
    decide, default_timeout, last_line, Action, ExecBenchmark, ExecConfig, ExecError, Results,
    MIN_TIMEOUT_NANOS,
};
use rebar::timer::{run, run_and_count, Sample};

fn bench(model: &str, expected: u64) -> ExecBenchmark {
    ExecBenchmark {
        config: ExecConfig::new(3, 1, 1_000_000_000, 500_000_000, None),
        name: "test/bench".to_string(),
        model: model.to_string(),
        patterns: vec!["a+".to_string()],
        case_insensitive: false,
        unicode: true,
        haystack: b"aaaa".to_vec(),
        engine: "rust/regex".to_string(),
        engine_version: "1.0.0".to_string(),
        expected_count: expected,
        rebar_version: "0.1.0".to_string(),
    }
}

#[test]
fn timeout_has_a_floor_and_doubles_the_budget() {
    assert_eq!(default_timeout(1, 1), MIN_TIMEOUT_NANOS);
    assert_eq!(default_timeout(3_000_000_000, 1_500_000_000), 9_000_000_000u64.max(MIN_TIMEOUT_NANOS));
    assert_eq!(default_timeout(10_000_000_000, 5_000_000_000), 30_000_000_000);
    assert_eq!(default_timeout(u64::MAX, u64::MAX), u64::MAX);
    let c = ExecConfig::default();
    assert_eq!(c.timeout, 10_000_000_000);
    assert_eq!(ExecConfig::new(1, 1, 1, 1, Some(7)).timeout, 7);
}

#[test]
fn runner_that_never_exits_is_killed_after_the_timeout() {
    let b = bench("count", 4);
    let timeout = b.config.timeout;
    assert_eq!(decide(false, 0, timeout), Action::Sleep);
    assert_eq!(decide(false, timeout, timeout), Action::Sleep);
    assert_eq!(decide(false, timeout + 1, timeout), Action::Kill);
    assert_eq!(decide(true, timeout + 1, timeout), Action::Collect);
    match b.timeout_error() {
        ExecError::Timeout { timeout: t } => assert_eq!(t, timeout),
        other => panic!("unexpected {:?}", other),
    }
}

#[test]
fn count_mismatch_is_a_verification_error() {
    let b = bench("count", 4);
    match b.finish(true, true, b"", b"100,5\n") {
        Err(ExecError::Samples(e)) => {
            assert_eq!(e.kind, SampleErrorKind::CountMismatch);
            assert_eq!(e.expected, 4);
            assert_eq!(e.got, Some(5));
        }
        other => panic!("unexpected {:?}", other),
    }
}

#[test]
fn failure_reports_the_last_line_of_stderr() {
    let b = bench("count", 4);
    match b.finish(false, true, b"warning\nthe real error\n", b"") {
        Err(ExecError::Failed { engine, last_stderr_line, captured }) => {
            assert_eq!(engine, "rust/regex");
            assert_eq!(last_stderr_line, Some(b"the real error".to_vec()));
            assert!(captured);
        }
        other => panic!("unexpected {:?}", other),
    }
    match b.finish(false, true, b"", b"") {
        Err(ExecError::Failed { last_stderr_line, .. }) => assert!(last_stderr_line.is_none()),
        other => panic!("unexpected {:?}", other),
    }
    match b.finish(false, false, b"ignored\n", b"") {
        Err(ExecError::Failed { last_stderr_line, captured, .. }) => {
            assert!(last_stderr_line.is_none());
            assert!(!captured);
        }
        other => panic!("unexpected {:?}", other),
    }
}

#[test]
fn last_line_of_stderr() {
    assert_eq!(last_line(b"a\nb"), Some(b"b".to_vec()));
    assert_eq!(last_line(b"a\nb\n"), Some(b"b".to_vec()));
    assert_eq!(last_line(b"a\n\n"), Some(b"".to_vec()));
    assert_eq!(last_line(b""), None);
}

#[test]
fn unknown_engine_version_is_refused() {
    let mut b = bench("count", 4);
    assert!(b.check_version().is_ok());
    b.engine_version = "ERROR".to_string();
    assert!(matches!(b.check_version(), Err(ExecError::MissingVersion)));
}

#[test]
fn request_carries_the_benchmark_and_budget() {
    let b = bench("count", 4);
    let r = b.request();
    assert_eq!(r.name, "test/bench");
    assert_eq!(r.regex.patterns, vec!["a+".to_string()]);
    assert!(r.regex.unicode);
    assert_eq!(r.haystack, b"aaaa".to_vec());
    assert_eq!(r.max_iters, 3);
    assert_eq!(r.max_warmup_iters, 1);
    let v = b.for_verification();
    assert_eq!(v.config.max_iters, 1);
    assert_eq!(v.config.max_warmup_iters, 0);
    assert_eq!(v.config.max_time, 0);
    assert_eq!(v.config.timeout, b.config.timeout);
}

#[test]
fn end_to_end_three_iterations() {
    let b = bench("count", 1);
    let mut input = vec![];
    b.request().write(&mut input);
    let req = Benchmark::read(&input).unwrap();
    assert_eq!(req.max_iters, 3);
    assert_eq!(req.max_warmup_iters, 1);
    let samples: Vec<Sample> = run(&req, || -> Result<usize, String> { Ok(1) }).unwrap();
    assert_eq!(samples.len(), 3);
    let mut out = vec![];
    for s in samples.iter() {
        write_sample(&mut out, s.duration, s.count);
    }
    let durations = b.finish(true, true, b"", &out).unwrap();
    let m = b.to_measurement(Results { samples: durations, total: 5 });
    assert!(m.err.is_none());
    assert_eq!(m.iters, 3);
    assert_eq!(m.total, 5);
    assert_eq!(m.aggregate.tputs.unwrap().len, 4);
}

#[test]
fn compile_models_have_no_throughput() {
    let b = bench("compile", 1);
    let m = b.to_measurement(Results { samples: vec![5, 7], total: 20 });
    assert!(m.aggregate.tputs.is_none());
    assert_eq!(m.aggregate.times.median, 6);
}

#[test]
fn no_samples_is_an_error_measurement() {
    let b = bench("count", 1);
    let m = b.to_measurement(Results { samples: vec![], total: 20 });
    assert_eq!(m.err, Some("no samples or errors recorded".to_string()));
    assert_eq!(m.iters, 0);
    assert_eq!(m.total, 0);
    let e = b.aggregate(Err("boom".to_string()));
    assert_eq!(e.err, Some("boom".to_string()));
    assert_eq!(e.aggregate.times.median, 0);
}

#[test]
fn timer_stops_at_the_iteration_budget_and_propagates_errors() {
    let mut req = Benchmark::default();
    req.max_iters = 5;
    req.max_time = u64::MAX;
    let s = run_and_count(&req, |n: usize| -> Result<usize, ()> { Ok(n * 2) }, || Ok(21)).unwrap();
    assert_eq!(s.len(), 5);
    assert!(s.iter().all(|x| x.count == 42));
    let e = run(&req, || -> Result<usize, &str> { Err("no") });
    assert_eq!(e.unwrap_err(), "no");
    req.max_iters = 0;
    assert!(run(&req, || -> Result<usize, ()> { Ok(0) }).unwrap().is_empty());
}

#[test]
fn samples_parse_back_from_written_lines() {
    let mut out = vec![];
    write_sample(&mut out, 0, 3);
    assert_eq!(parse_samples(&out, 3).unwrap(), vec![1]);
}
