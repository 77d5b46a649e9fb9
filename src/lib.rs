//! A benchmark harness core: the key-length-value request format that runner
//! processes read, the result stream that they write back, the supervisor's
//! decisions while a runner runs, the reduction of samples to aggregate
//! statistics, name filters, and the grouping and ranking of measurements
//! across engines.
use vstd::prelude::*;

pub mod args;
pub mod decimal;
pub mod definition;
pub mod filter;
pub mod grouped;
pub mod human;
pub mod klv;
pub mod measurement;
pub mod order;
pub mod reduce;
pub mod results;
pub mod supervisor;
pub mod timer;

verus! {

/// Which aggregate statistic a comparison is based on.
#[derive(Clone, Copy, Debug, PartialEq, Eq, Structural)]
pub enum Stat {
    Median,
    Mad,
    Mean,
    Stddev,
    Min,
    Max,
}

impl Stat {
    /// The name of the statistic.
    pub fn name(&self) -> (r: &'static str)
        ensures
            r@ == match *self {
                Stat::Median => "median"@,
                Stat::Mad => "mad"@,
                Stat::Mean => "mean"@,
                Stat::Stddev => "stddev"@,
                Stat::Min => "min"@,
                Stat::Max => "max"@,
            },
    {
        match *self {
            Stat::Median => "median",
            Stat::Mad => "mad",
            Stat::Mean => "mean",
            Stat::Stddev => "stddev",
            Stat::Min => "min",
            Stat::Max => "max",
        }
    }

    /// The statistic of a name: one of median, mad, mean, stddev, min, max.
    pub fn from_name(s: &str) -> (r: Option<Stat>)
        ensures
            r == if s@ == "median"@ {
                Some(Stat::Median)
            } else if s@ == "mad"@ {
                Some(Stat::Mad)
            } else if s@ == "mean"@ {
                Some(Stat::Mean)
            } else if s@ == "stddev"@ {
                Some(Stat::Stddev)
            } else if s@ == "min"@ {
                Some(Stat::Min)
            } else if s@ == "max"@ {
                Some(Stat::Max)
            } else {
                None
            },
    {
        let t = s.to_owned();
        if t == "median".to_owned() {
            Some(Stat::Median)
        } else if t == "mad".to_owned() {
            Some(Stat::Mad)
        } else if t == "mean".to_owned() {
            Some(Stat::Mean)
        } else if t == "stddev".to_owned() {
            Some(Stat::Stddev)
        } else if t == "min".to_owned() {
            Some(Stat::Min)
        } else if t == "max".to_owned() {
            Some(Stat::Max)
        } else {
            None
        }
    }
}

impl Default for Stat {
    fn default() -> (r: Stat)
        ensures
            r == Stat::Median,
    {
        Stat::Median
    }
}

} // verus!
