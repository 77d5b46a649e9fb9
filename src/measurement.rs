//! Measurements: the aggregate result of running one benchmark with one engine.
use vstd::prelude::*;

use crate::Stat;

verus! {

/// Aggregate timings of a benchmark's samples, in nanoseconds.
#[derive(Clone, Copy, Debug, Default, PartialEq, Eq, Structural)]
pub struct AggregateTimes {
    pub median: u64,
    pub mad: u64,
    pub mean: u64,
    pub stddev: u64,
    pub min: u64,
    pub max: u64,
}

/// Bytes processed per second.
#[derive(Clone, Copy, Debug, Default, PartialEq, Eq, Structural)]
pub struct Throughput {
    pub bytes_per_second: u128,
}

/// The throughput of `bytes` processed in `nanos` nanoseconds, rounded down;
/// a duration of zero gives the largest throughput there is.
pub open spec fn throughput_of(bytes: u64, nanos: u64) -> u128 {
    if nanos == 0 {
        u128::MAX
    } else {
        ((bytes as int * 1_000_000_000) / nanos as int) as u128
    }
}

impl Throughput {
    /// The throughput of `bytes` processed in `nanos` nanoseconds.
    pub fn new(bytes: u64, nanos: u64) -> (r: Throughput)
        ensures
            r.bytes_per_second == throughput_of(bytes, nanos),
    {
        if nanos == 0 {
            Throughput { bytes_per_second: u128::MAX }
        } else {
            let scaled = (bytes as u128) * 1_000_000_000u128;
            proof {
                assert(scaled as int / nanos as int <= scaled as int) by (nonlinear_arith)
                    requires
                        nanos >= 1,
                        scaled >= 0,
                ;
            }
            Throughput { bytes_per_second: scaled / (nanos as u128) }
        }
    }

    /// A throughput given directly in bytes per second.
    pub fn from_bytes_per_second(bytes_per_second: u128) -> (r: Throughput)
        ensures
            r.bytes_per_second == bytes_per_second,
    {
        Throughput { bytes_per_second }
    }
}

/// Aggregate throughputs, derived from the timings and a non-zero haystack length.
#[derive(Clone, Copy, Debug, Default, PartialEq, Eq, Structural)]
pub struct AggregateThroughputs {
    pub len: u64,
    pub median: Throughput,
    pub mad: Throughput,
    pub mean: Throughput,
    pub stddev: Throughput,
    pub min: Throughput,
    pub max: Throughput,
}

/// Aggregate timings, and throughputs when the haystack length is known.
#[derive(Clone, Copy, Debug, Default, PartialEq, Eq, Structural)]
pub struct Aggregate {
    pub times: AggregateTimes,
    pub tputs: Option<AggregateThroughputs>,
}

/// The throughputs that timings give over `len` bytes.
pub open spec fn throughputs_of(times: AggregateTimes, len: u64) -> AggregateThroughputs {
    AggregateThroughputs {
        len,
        median: Throughput { bytes_per_second: throughput_of(len, times.median) },
        mad: Throughput { bytes_per_second: throughput_of(len, times.mad) },
        mean: Throughput { bytes_per_second: throughput_of(len, times.mean) },
        stddev: Throughput { bytes_per_second: throughput_of(len, times.stddev) },
        min: Throughput { bytes_per_second: throughput_of(len, times.min) },
        max: Throughput { bytes_per_second: throughput_of(len, times.max) },
    }
}

impl Aggregate {
    /// Aggregate statistics from timings; throughputs are present exactly when
    /// a non-zero haystack length is given.
    pub fn new(times: AggregateTimes, haystack_len: Option<u64>) -> (r: Aggregate)
        ensures
            r.times == times,
            r.tputs == (match haystack_len {
                Some(len) if len > 0 => Some(throughputs_of(times, len)),
                _ => None,
            }),
    {
        let tputs = match haystack_len {
            Some(len) => if len == 0 {
                None
            } else {
                Some(
                    AggregateThroughputs {
                        len,
                        median: Throughput::new(len, times.median),
                        mad: Throughput::new(len, times.mad),
                        mean: Throughput::new(len, times.mean),
                        stddev: Throughput::new(len, times.stddev),
                        min: Throughput::new(len, times.min),
                        max: Throughput::new(len, times.max),
                    },
                )
            },
            None => None,
        };
        Aggregate { times, tputs }
    }
}

/// The timing statistic that `stat` selects.
pub open spec fn time_stat(times: AggregateTimes, stat: Stat) -> u64 {
    match stat {
        Stat::Median => times.median,
        Stat::Mad => times.mad,
        Stat::Mean => times.mean,
        Stat::Stddev => times.stddev,
        Stat::Min => times.min,
        Stat::Max => times.max,
    }
}

/// The throughput statistic that `stat` selects.
pub open spec fn tput_stat(t: AggregateThroughputs, stat: Stat) -> Throughput {
    match stat {
        Stat::Median => t.median,
        Stat::Mad => t.mad,
        Stat::Mean => t.mean,
        Stat::Stddev => t.stddev,
        Stat::Min => t.min,
        Stat::Max => t.max,
    }
}

/// The record of one benchmark run with one engine. When `err` is set, every
/// numeric field is zero.
#[derive(Debug)]
pub struct Measurement {
    pub name: String,
    pub model: String,
    pub rebar_version: String,
    pub engine: String,
    pub engine_version: String,
    pub err: Option<String>,
    pub iters: u64,
    /// Total wall time of the run, in nanoseconds.
    pub total: u64,
    pub aggregate: Aggregate,
}

impl Clone for Measurement {
    fn clone(&self) -> (r: Measurement)
        ensures
            r == *self,
    {
        let err = match &self.err {
            Some(e) => Some(e.clone()),
            None => None,
        };
        Measurement {
            name: self.name.clone(),
            model: self.model.clone(),
            rebar_version: self.rebar_version.clone(),
            engine: self.engine.clone(),
            engine_version: self.engine_version.clone(),
            err,
            iters: self.iters,
            total: self.total,
            aggregate: self.aggregate,
        }
    }
}

impl Measurement {
    /// The throughput statistic that `stat` selects, if there are throughputs.
    pub fn throughput(&self, stat: Stat) -> (r: Option<Throughput>)
        ensures
            r == (match self.aggregate.tputs {
                Some(t) => Some(tput_stat(t, stat)),
                None => None,
            }),
    {
        match self.aggregate.tputs {
            None => None,
            Some(t) => Some(
                match stat {
                    Stat::Median => t.median,
                    Stat::Mad => t.mad,
                    Stat::Mean => t.mean,
                    Stat::Stddev => t.stddev,
                    Stat::Min => t.min,
                    Stat::Max => t.max,
                },
            ),
        }
    }

    /// The timing statistic that `stat` selects, in nanoseconds.
    pub fn duration(&self, stat: Stat) -> (r: u64)
        ensures
            r == time_stat(self.aggregate.times, stat),
    {
        let times = self.aggregate.times;
        match stat {
            Stat::Median => times.median,
            Stat::Mad => times.mad,
            Stat::Mean => times.mean,
            Stat::Stddev => times.stddev,
            Stat::Min => times.min,
            Stat::Max => times.max,
        }
    }
}

} // verus!
