//! The decisions of the benchmark supervisor: its budget, what to do after each
//! poll of a runner process, how a finished runner's output turns into samples
//! or an error, and how samples become a measurement.
//!
//! Spawning the runner, the pipe threads and the sleeping between polls are
//! left to the caller, which hands the events to these functions.
use vstd::prelude::*;

use crate::klv::{texts, Benchmark, RegexConfig};
use crate::measurement::{throughputs_of, Aggregate, AggregateTimes, Measurement};
use crate::reduce::{reduce, reduces_to};
use crate::results::{next_line, parse_samples, parse_stream, SampleError};

verus! {

/// The least timeout, in nanoseconds: ten seconds.
pub const MIN_TIMEOUT_NANOS: u64 = 10_000_000_000;

/// The pause between two polls of a runner, in milliseconds.
pub const POLL_INTERVAL_MILLIS: u64 = 50;

/// The default timeout for the given budgets: twice their sum, and no less
/// than ten seconds.
pub open spec fn default_timeout_of(max_time: u64, max_warmup_time: u64) -> int {
    let t = 2 * (max_time + max_warmup_time);
    if t < MIN_TIMEOUT_NANOS {
        MIN_TIMEOUT_NANOS as int
    } else if t > u64::MAX {
        u64::MAX as int
    } else {
        t
    }
}

/// The default timeout for the given budgets, in nanoseconds.
pub fn default_timeout(max_time: u64, max_warmup_time: u64) -> (r: u64)
    ensures
        r == default_timeout_of(max_time, max_warmup_time),
        r >= MIN_TIMEOUT_NANOS,
{
    let sum = max_time as u128 + max_warmup_time as u128;
    let t = 2 * sum;
    if t < MIN_TIMEOUT_NANOS as u128 {
        MIN_TIMEOUT_NANOS
    } else if t > u64::MAX as u128 {
        u64::MAX
    } else {
        t as u64
    }
}

/// How long and how often one benchmark runs. Times are in nanoseconds.
#[derive(Clone, Copy, Debug, PartialEq, Eq, Structural)]
pub struct ExecConfig {
    /// The most samples to collect.
    pub max_iters: u64,
    /// The most warm-up iterations before sampling.
    pub max_warmup_iters: u64,
    /// The time budget of sampling.
    pub max_time: u64,
    /// The time budget of warming up.
    pub max_warmup_time: u64,
    /// After this long the runner is killed.
    pub timeout: u64,
}

impl ExecConfig {
    /// A budget whose timeout defaults to twice the time budgets, at least ten
    /// seconds, unless one is given.
    pub fn new(
        max_iters: u64,
        max_warmup_iters: u64,
        max_time: u64,
        max_warmup_time: u64,
        timeout: Option<u64>,
    ) -> (r: ExecConfig)
        ensures
            r.max_iters == max_iters,
            r.max_warmup_iters == max_warmup_iters,
            r.max_time == max_time,
            r.max_warmup_time == max_warmup_time,
            r.timeout == match timeout {
                Some(t) => t as int,
                None => default_timeout_of(max_time, max_warmup_time),
            },
    {
        let timeout = match timeout {
            Some(t) => t,
            None => default_timeout(max_time, max_warmup_time),
        };
        ExecConfig { max_iters, max_warmup_iters, max_time, max_warmup_time, timeout }
    }

    /// The same budget for one sample and no warm-up: enough to check that a
    /// benchmark runs and counts correctly.
    pub fn for_verification(&self) -> (r: ExecConfig)
        ensures
            r == (ExecConfig {
                max_iters: 1,
                max_warmup_iters: 0,
                max_time: 0,
                max_warmup_time: 0,
                timeout: self.timeout,
            }),
    {
        ExecConfig {
            max_iters: 1,
            max_warmup_iters: 0,
            max_time: 0,
            max_warmup_time: 0,
            timeout: self.timeout,
        }
    }
}

impl Default for ExecConfig {
    /// A million iterations of each kind, three seconds of sampling and one and
    /// a half of warm-up, and the default timeout for those.
    fn default() -> (r: ExecConfig)
        ensures
            r.max_iters == 1_000_000,
            r.max_warmup_iters == 1_000_000,
            r.max_time == 3_000_000_000,
            r.max_warmup_time == 1_500_000_000,
            r.timeout == default_timeout_of(3_000_000_000, 1_500_000_000),
    {
        ExecConfig::new(1_000_000, 1_000_000, 3_000_000_000, 1_500_000_000, None)
    }
}

/// What to do after polling a runner.
#[derive(Clone, Copy, Debug, PartialEq, Eq, Structural)]
pub enum Action {
    /// The runner exited: join the pipes and read its output.
    Collect,
    /// The runner is still going and time is left: sleep and poll again.
    Sleep,
    /// The runner overran its timeout: kill it, reap it, and fail.
    Kill,
}

/// The next step after a poll that found the runner `exited` or not, when
/// `elapsed` nanoseconds have passed since it was spawned.
pub fn decide(exited: bool, elapsed: u64, timeout: u64) -> (r: Action)
    ensures
        r == if exited {
            Action::Collect
        } else if elapsed > timeout {
            Action::Kill
        } else {
            Action::Sleep
        },
{
    if exited {
        Action::Collect
    } else if elapsed > timeout {
        Action::Kill
    } else {
        Action::Sleep
    }
}

/// Why one benchmark run failed.
#[derive(Clone, Debug)]
pub enum ExecError {
    /// The engine's version is unknown, so it is not run.
    MissingVersion,
    /// The runner overran the timeout, in nanoseconds, and was killed.
    Timeout { timeout: u64 },
    /// The runner exited with failure. Its last line of standard error, when
    /// that was captured and was not empty.
    Failed { engine: String, last_stderr_line: Option<Vec<u8>>, captured: bool },
    /// The runner's output is malformed or counts wrongly.
    Samples(SampleError),
}

/// The last line of `s`, if it has any line.
pub open spec fn last_line_of(s: Seq<u8>) -> Option<Seq<u8>>
    decreases s.len(),
{
    if s.len() == 0 {
        None
    } else {
        let (l, n) = next_line(s);
        if 0 < n <= s.len() {
            match last_line_of(s.skip(n)) {
                None => Some(l),
                Some(x) => Some(x),
            }
        } else {
            None
        }
    }
}

/// The last line of a runner's standard error.
pub fn last_line(err: &[u8]) -> (r: Option<Vec<u8>>)
    ensures
        match r {
            Some(v) => last_line_of(err@) == Some(v@),
            None => last_line_of(err@) is None,
        },
{
    let mut last: Option<Vec<u8>> = None;
    let mut pos: usize = 0;
    assert(err@.skip(0) =~= err@);
    while pos < err.len()
        invariant
            pos <= err@.len(),
            last_line_of(err@) == match last_line_of(err@.skip(pos as int)) {
                Some(x) => Some(x),
                None => match last {
                    Some(v) => Some(v@),
                    None => None,
                },
            },
            pos > 0 ==> last is Some,
        decreases err.len() - pos,
    {
        let ghost s = err@.skip(pos as int);
        let (end, next) = crate::results::line_at(err, pos);
        let line = crate::results::copy_bytes(err, pos, end);
        proof {
            assert(s.skip(next - pos) =~= err@.skip(next as int));
        }
        last = Some(line);
        pos = next;
    }
    assert(err@.skip(pos as int) =~= Seq::<u8>::empty());
    last
}

/// What the samples of a finished runner are: the parsed samples when it
/// succeeded, else a failure with the last line of standard error when that
/// was captured.
pub open spec fn outcome_of(
    engine: Seq<char>,
    success: bool,
    captured: bool,
    stderr: Seq<u8>,
    stdout: Seq<u8>,
    expected: u64,
    r: Result<Vec<u64>, ExecError>,
) -> bool {
    if !success {
        r matches Err(ExecError::Failed { engine: e, last_stderr_line, captured: c }) && e@ == engine
            && c == captured && if captured {
            match last_line_of(stderr) {
                Some(l) => last_stderr_line matches Some(v) && v@ == l,
                None => last_stderr_line is None,
            }
        } else {
            last_stderr_line is None
        }
    } else {
        match parse_stream(stdout, expected) {
            Ok(v) => r matches Ok(s) && s@ == v,
            Err(k) => r matches Err(ExecError::Samples(e)) && e.kind == k,
        }
    }
}

/// The result of a run of a benchmark: its samples in nanoseconds and the total
/// wall time from spawning the runner to reaping it.
#[derive(Clone, Debug)]
pub struct Results {
    pub samples: Vec<u64>,
    pub total: u64,
}

/// One benchmark to run with one engine.
#[derive(Clone, Debug)]
pub struct ExecBenchmark {
    pub config: ExecConfig,
    pub name: String,
    pub model: String,
    pub patterns: Vec<String>,
    pub case_insensitive: bool,
    pub unicode: bool,
    pub haystack: Vec<u8>,
    pub engine: String,
    pub engine_version: String,
    /// The count that every sample must report.
    pub expected_count: u64,
    /// The version of the harness, recorded in each measurement.
    pub rebar_version: String,
}

/// Every numeric field of a measurement is zero and it has no throughputs.
pub open spec fn zeroed(m: Measurement) -> bool {
    &&& m.iters == 0
    &&& m.total == 0
    &&& m.aggregate.times == AggregateTimes { median: 0, mad: 0, mean: 0, stddev: 0, min: 0, max: 0 }
    &&& m.aggregate.tputs is None
}

/// The haystack length that throughputs use: none for the models that
/// measure compilation or a whole program.
pub open spec fn haystack_len_of(model: Seq<char>, len: nat) -> Option<u64> {
    if model == "compile"@ || model == "regex-redux"@ {
        None
    } else {
        Some(len as u64)
    }
}

/// A copy of a list of strings.
fn copy_strings(v: &Vec<String>) -> (r: Vec<String>)
    ensures
        r@ == v@,
{
    let mut out: Vec<String> = Vec::new();
    let mut i: usize = 0;
    while i < v.len()
        invariant
            i <= v@.len(),
            out@ == v@.take(i as int),
        decreases v.len() - i,
    {
        out.push(v[i].clone());
        i = i + 1;
        assert(out@ =~= v@.take(i as int));
    }
    assert(v@.take(i as int) =~= v@);
    out
}

/// A copy of a byte string.
fn copy_vec(v: &Vec<u8>) -> (r: Vec<u8>)
    ensures
        r@ == v@,
{
    let mut out: Vec<u8> = Vec::new();
    let mut i: usize = 0;
    while i < v.len()
        invariant
            i <= v@.len(),
            out@ == v@.take(i as int),
        decreases v.len() - i,
    {
        out.push(v[i]);
        i = i + 1;
        assert(out@ =~= v@.take(i as int));
    }
    assert(v@.take(i as int) =~= v@);
    out
}

/// The message of a run that recorded no samples.
pub open spec fn no_samples_text() -> Seq<char> {
    "no samples or errors recorded"@
}

/// `r` is the measurement of benchmark `b` with `results`: their aggregate
/// statistics, with throughputs over the haystack unless the model measures
/// compilation or a whole program; an error, never a zero measurement, when
/// there are no samples.
pub open spec fn measures(b: ExecBenchmark, results: Results, r: Measurement) -> bool {
    &&& r.name == b.name
    &&& r.model == b.model
    &&& r.engine == b.engine
    &&& r.engine_version == b.engine_version
    &&& r.rebar_version == b.rebar_version
    &&& results.samples@.len() == 0 ==> (r.err matches Some(e) && e@ == no_samples_text()) && zeroed(r)
    &&& results.samples@.len() > 0 ==> {
        &&& r.err is None
        &&& r.iters == results.samples@.len()
        &&& r.total == results.total
        &&& reduces_to(results.samples@, r.aggregate.times)
        &&& r.aggregate.tputs == match haystack_len_of(b.model@, b.haystack@.len()) {
            Some(len) if len > 0 => Some(throughputs_of(r.aggregate.times, len)),
            _ => None,
        }
    }
}

impl ExecBenchmark {
    /// The request that the runner receives.
    pub fn request(&self) -> (r: Benchmark)
        ensures
            r@.name == self.name@,
            r@.model == self.model@,
            r@.patterns == texts(self.patterns@),
            r@.case_insensitive == self.case_insensitive,
            r@.unicode == self.unicode,
            r@.haystack == self.haystack@,
            r@.max_iters == self.config.max_iters,
            r@.max_warmup_iters == self.config.max_warmup_iters,
            r@.max_time == self.config.max_time,
            r@.max_warmup_time == self.config.max_warmup_time,
    {
        Benchmark {
            name: self.name.clone(),
            model: self.model.clone(),
            regex: RegexConfig {
                patterns: copy_strings(&self.patterns),
                case_insensitive: self.case_insensitive,
                unicode: self.unicode,
            },
            haystack: copy_vec(&self.haystack),
            max_iters: self.config.max_iters,
            max_warmup_iters: self.config.max_warmup_iters,
            max_time: self.config.max_time,
            max_warmup_time: self.config.max_warmup_time,
        }
    }

    /// The same benchmark with the budget for verification.
    pub fn for_verification(&self) -> (r: ExecBenchmark)
        ensures
            r.config == (ExecConfig {
                max_iters: 1,
                max_warmup_iters: 0,
                max_time: 0,
                max_warmup_time: 0,
                timeout: self.config.timeout,
            }),
            r.name == self.name,
            r.model == self.model,
            r.patterns@ == self.patterns@,
            r.haystack@ == self.haystack@,
            r.engine == self.engine,
            r.engine_version == self.engine_version,
            r.expected_count == self.expected_count,
    {
        ExecBenchmark {
            config: self.config.for_verification(),
            name: self.name.clone(),
            model: self.model.clone(),
            patterns: copy_strings(&self.patterns),
            case_insensitive: self.case_insensitive,
            unicode: self.unicode,
            haystack: copy_vec(&self.haystack),
            engine: self.engine.clone(),
            engine_version: self.engine_version.clone(),
            expected_count: self.expected_count,
            rebar_version: self.rebar_version.clone(),
        }
    }

    /// Refuses an engine whose version is marked as unknown (`ERROR`).
    pub fn check_version(&self) -> (r: Result<(), ExecError>)
        ensures
            r is Ok <==> self.engine_version@ != "ERROR"@,
            match r {
                Err(e) => e is MissingVersion,
                Ok(()) => true,
            },
    {
        let missing = "ERROR".to_owned();
        if self.engine_version == missing {
            Err(ExecError::MissingVersion)
        } else {
            Ok(())
        }
    }

    /// The error of a runner killed for overrunning the timeout.
    pub fn timeout_error(&self) -> (r: ExecError)
        ensures
            r matches ExecError::Timeout { timeout } && timeout == self.config.timeout,
    {
        ExecError::Timeout { timeout: self.config.timeout }
    }

    /// Turns what a finished runner left behind into samples: on failure, an
    /// error with the last line of its standard error when that was captured;
    /// on success, its result stream, every count checked against the expected
    /// count.
    pub fn finish(&self, success: bool, captured: bool, stderr: &[u8], stdout: &[u8]) -> (r: Result<
        Vec<u64>,
        ExecError,
    >)
        ensures
            outcome_of(self.engine@, success, captured, stderr@, stdout@, self.expected_count, r),
    {
        if !success {
            let last = if captured {
                last_line(stderr)
            } else {
                None
            };
            return Err(
                ExecError::Failed {
                    engine: self.engine.clone(),
                    last_stderr_line: last,
                    captured,
                },
            );
        }
        match parse_samples(stdout, self.expected_count) {
            Ok(v) => Ok(v),
            Err(e) => Err(ExecError::Samples(e)),
        }
    }

    /// A measurement that records `err` instead of data: every numeric field is zero.
    pub fn measurement_error(&self, err: String) -> (r: Measurement)
        ensures
            r.name == self.name,
            r.model == self.model,
            r.engine == self.engine,
            r.engine_version == self.engine_version,
            r.rebar_version == self.rebar_version,
            r.err == Some(err),
            zeroed(r),
    {
        Measurement {
            name: self.name.clone(),
            model: self.model.clone(),
            rebar_version: self.rebar_version.clone(),
            engine: self.engine.clone(),
            engine_version: self.engine_version.clone(),
            err: Some(err),
            iters: 0,
            total: 0,
            aggregate: Aggregate::new(
                AggregateTimes { median: 0, mad: 0, mean: 0, stddev: 0, min: 0, max: 0 },
                None,
            ),
        }
    }

    /// The measurement of the results: their aggregate statistics, with
    /// throughputs over the haystack unless the model measures compilation or
    /// a whole program. No samples is an error, never a zero measurement.
    pub fn to_measurement(&self, results: Results) -> (r: Measurement)
        ensures
            measures(*self, results, r),
    {
        let n = results.samples.len();
        let total = results.total;
        let times = match reduce(results.samples) {
            None => {
                return self.measurement_error("no samples or errors recorded".to_owned());
            },
            Some(t) => t,
        };
        let compile = "compile".to_owned();
        let redux = "regex-redux".to_owned();
        let haystack_len = if self.model == compile || self.model == redux {
            None
        } else {
            Some(self.haystack.len() as u64)
        };
        Measurement {
            name: self.name.clone(),
            model: self.model.clone(),
            rebar_version: self.rebar_version.clone(),
            engine: self.engine.clone(),
            engine_version: self.engine_version.clone(),
            err: None,
            iters: n as u64,
            total,
            aggregate: Aggregate::new(times, haystack_len),
        }
    }

    /// The measurement of a run: its statistics on success, else its error.
    pub fn aggregate(&self, result: Result<Results, String>) -> (r: Measurement)
        ensures
            match result {
                Ok(res) => measures(*self, res, r),
                Err(e) => {
                    &&& r.name == self.name
                    &&& r.model == self.model
                    &&& r.engine == self.engine
                    &&& r.engine_version == self.engine_version
                    &&& r.rebar_version == self.rebar_version
                    &&& r.err == Some(e)
                    &&& zeroed(r)
                },
            },
    {
        match result {
            Ok(res) => self.to_measurement(res),
            Err(e) => self.measurement_error(e),
        }
    }
}

} // verus!
