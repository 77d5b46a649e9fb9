//! Grouping of measurements by benchmark name, speedup ratios within a group,
//! and the ranking of engines across groups.
use vstd::prelude::*;

use crate::filter::{passes, Filters};
use crate::klv::texts;
use crate::order::{
    lemma_lex_irreflexive, lemma_lex_total, lemma_lex_transitive, lemma_name_key_injective,
    name_before, name_key, name_lt,
};
use crate::measurement::{time_stat, Measurement};
use crate::Stat;

verus! {

/// Measurements that share one benchmark name, at most one per engine.
#[derive(Clone, Debug)]
pub struct ByBenchmarkNameGroup {
    /// The benchmark name that every measurement of the group carries.
    pub name: String,
    /// The measurements, one per engine, in the order in which they came.
    pub by_engine: Vec<Measurement>,
}

/// Measurements grouped by benchmark name, groups in order of first appearance.
#[derive(Clone, Debug)]
pub struct ByBenchmarkName {
    pub groups: Vec<ByBenchmarkNameGroup>,
}

/// A group as a name and its measurements.
pub type GroupView = (Seq<char>, Seq<Measurement>);

impl View for ByBenchmarkNameGroup {
    type V = GroupView;

    open spec fn view(&self) -> GroupView {
        (self.name@, self.by_engine@)
    }
}

/// The views of a list of groups.
pub open spec fn groups_view(gs: Seq<ByBenchmarkNameGroup>) -> Seq<GroupView> {
    gs.map_values(|g: ByBenchmarkNameGroup| g@)
}

/// `k` is the first group named `name`.
pub open spec fn is_first_group(gs: Seq<GroupView>, name: Seq<char>, k: int) -> bool {
    &&& 0 <= k < gs.len()
    &&& gs[k].0 == name
    &&& forall|j: int| 0 <= j < k ==> gs[j].0 != name
}

/// The groups after one more measurement: it joins the group of its name, or
/// opens a new group at the end.
pub open spec fn insert_measurement(gs: Seq<GroupView>, m: Measurement) -> Seq<GroupView> {
    if exists|k: int| is_first_group(gs, m.name@, k) {
        let k = choose|k: int| is_first_group(gs, m.name@, k);
        gs.update(k, (gs[k].0, gs[k].1.push(m)))
    } else {
        gs.push((m.name@, seq![m]))
    }
}

/// The groups of a list of measurements.
pub open spec fn groups_of(ms: Seq<Measurement>) -> Seq<GroupView>
    decreases ms.len(),
{
    if ms.len() == 0 {
        Seq::empty()
    } else {
        insert_measurement(groups_of(ms.drop_last()), ms.last())
    }
}

/// Measurement `i` has the engine of an earlier one, with another version.
pub open spec fn version_conflict(ms: Seq<Measurement>, i: int) -> bool {
    exists|j: int|
        0 <= j < i && (#[trigger] ms[j]).engine@ == ms[i].engine@ && ms[j].engine_version@
            != ms[i].engine_version@
}

/// Measurement `i` has the benchmark name and engine of an earlier one.
pub open spec fn duplicate(ms: Seq<Measurement>, i: int) -> bool {
    exists|j: int| 0 <= j < i && (#[trigger] ms[j]).engine@ == ms[i].engine@ && ms[j].name@ == ms[i].name@
}

/// Measurement `i` cannot join the ones before it.
pub open spec fn conflicts(ms: Seq<Measurement>, i: int) -> bool {
    version_conflict(ms, i) || duplicate(ms, i)
}

/// None of the first `n` measurements conflicts with an earlier one.
pub open spec fn consistent_upto(ms: Seq<Measurement>, n: int) -> bool {
    forall|i: int| 0 <= i < n ==> !#[trigger] conflicts(ms, i)
}

/// Why a list of measurements cannot be grouped.
#[derive(Clone, Debug)]
pub enum GroupError {
    /// Two measurements of one engine carry different versions.
    VersionMismatch { engine: String, first: String, second: String },
    /// Two measurements share a benchmark name and an engine.
    Duplicate { name: String, engine: String },
}

/// The error that the first conflicting measurement, at `i`, gives.
pub open spec fn error_at(ms: Seq<Measurement>, i: int, e: GroupError) -> bool {
    &&& 0 <= i < ms.len()
    &&& consistent_upto(ms, i)
    &&& conflicts(ms, i)
    &&& if version_conflict(ms, i) {
        e matches GroupError::VersionMismatch { engine, second, .. } && engine@ == ms[i].engine@
            && second@ == ms[i].engine_version@
    } else {
        e matches GroupError::Duplicate { name, engine } && name@ == ms[i].name@ && engine@
            == ms[i].engine@
    }
}

/// Every group is non-empty, its measurements carry its name, and no two
/// groups share a name.
pub open spec fn well_formed(gs: Seq<GroupView>) -> bool {
    &&& forall|k: int| 0 <= k < gs.len() ==> (#[trigger] gs[k]).1.len() > 0
    &&& forall|k: int, x: int|
        0 <= k < gs.len() && 0 <= x < gs[k].1.len() ==> (#[trigger] gs[k].1[x]).name@ == gs[k].0
    &&& forall|k: int, l: int| 0 <= k < l < gs.len() ==> (#[trigger] gs[k]).0 != (#[trigger] gs[l]).0
}

/// Grouping keeps the groups well formed.
pub proof fn lemma_groups_well_formed(ms: Seq<Measurement>)
    ensures
        well_formed(groups_of(ms)),
    decreases ms.len(),
{
    if ms.len() > 0 {
        let p = ms.drop_last();
        let m = ms.last();
        lemma_groups_well_formed(p);
        let gs = groups_of(p);
        if exists|k: int| is_first_group(gs, m.name@, k) {
            let k = choose|k: int| is_first_group(gs, m.name@, k);
            let r = gs.update(k, (gs[k].0, gs[k].1.push(m)));
            assert(groups_of(ms) == r);
            assert forall|a: int, x: int|
                0 <= a < r.len() && 0 <= x < r[a].1.len() implies (#[trigger] r[a].1[x]).name@
                == r[a].0 by {
                if a == k && x == gs[k].1.len() {
                } else if a == k {
                    assert(r[a].1[x] == gs[a].1[x]);
                }
            }
        } else {
            let r = gs.push((m.name@, seq![m]));
            assert(groups_of(ms) == r);
            assert forall|a: int, x: int|
                0 <= a < r.len() && 0 <= x < r[a].1.len() implies (#[trigger] r[a].1[x]).name@
                == r[a].0 by {
                if a == gs.len() {
                    assert(r[a].1 == seq![m]);
                } else {
                    assert(r[a] == gs[a]);
                }
            }
            assert forall|a: int, b: int| 0 <= a < b < r.len() implies (#[trigger] r[a]).0
                != (#[trigger] r[b]).0 by {
                if b == gs.len() {
                    assert(r[a] == gs[a]);
                    if r[a].0 == m.name@ {
                        if exists|j: int| 0 <= j < a && gs[j].0 == m.name@ {
                            let j = choose|j: int| 0 <= j < a && gs[j].0 == m.name@;
                            assert(gs[j].0 == m.name@);
                            assert(false);
                        }
                        assert(is_first_group(gs, m.name@, a));
                    }
                } else {
                    assert(r[a] == gs[a]);
                    assert(r[b] == gs[b]);
                }
            }
        }
    }
}

/// Whether measurement `i` of `ms` conflicts with an earlier one, and how.
fn find_conflict(ms: &[Measurement], i: usize) -> (r: Option<GroupError>)
    requires
        i < ms@.len(),
    ensures
        r is None <==> !conflicts(ms@, i as int),
        match r {
            Some(e) => consistent_upto(ms@, i as int) ==> error_at(ms@, i as int, e),
            None => true,
        },
{
    let m = &ms[i];
    let mut j: usize = 0;
    while j < i
        invariant
            i < ms@.len(),
            j <= i,
            m == ms@[i as int],
            forall|x: int|
                0 <= x < j ==> !((#[trigger] ms@[x]).engine@ == m.engine@ && ms@[x].engine_version@
                    != m.engine_version@),
        decreases i - j,
    {
        let o = &ms[j];
        if o.engine == m.engine && !(o.engine_version == m.engine_version) {
            return Some(
                GroupError::VersionMismatch {
                    engine: m.engine.clone(),
                    first: o.engine_version.clone(),
                    second: m.engine_version.clone(),
                },
            );
        }
        j = j + 1;
    }
    let mut j: usize = 0;
    while j < i
        invariant
            i < ms@.len(),
            j <= i,
            m == ms@[i as int],
            !version_conflict(ms@, i as int),
            forall|x: int|
                0 <= x < j ==> !((#[trigger] ms@[x]).engine@ == m.engine@ && ms@[x].name@
                    == m.name@),
        decreases i - j,
    {
        let o = &ms[j];
        if o.engine == m.engine && o.name == m.name {
            return Some(GroupError::Duplicate { name: m.name.clone(), engine: m.engine.clone() });
        }
        j = j + 1;
    }
    None
}

/// The position of the first group named `name`, if any.
fn find_group(gs: &Vec<ByBenchmarkNameGroup>, name: &String) -> (r: Option<usize>)
    ensures
        match r {
            Some(k) => is_first_group(groups_view(gs@), name@, k as int),
            None => !exists|k: int| is_first_group(groups_view(gs@), name@, k),
        },
{
    let ghost v = groups_view(gs@);
    let mut k: usize = 0;
    while k < gs.len()
        invariant
            k <= gs@.len(),
            v == groups_view(gs@),
            forall|j: int| 0 <= j < k ==> (#[trigger] v[j]).0 != name@,
        decreases gs.len() - k,
    {
        if gs[k].name == *name {
            assert(v[k as int] == gs@[k as int]@);
            return Some(k);
        }
        assert(v[k as int] == gs@[k as int]@);
        k = k + 1;
    }
    None
}

impl ByBenchmarkName {
    /// Groups measurements by benchmark name. It fails at the first measurement
    /// whose engine was seen before with another version, or whose benchmark
    /// name and engine were seen before.
    pub fn new(measurements: &[Measurement]) -> (r: Result<ByBenchmarkName, GroupError>)
        ensures
            r is Ok <==> consistent_upto(measurements@, measurements@.len() as int),
            match r {
                Ok(g) => groups_view(g.groups@) == groups_of(measurements@) && well_formed(
                    groups_view(g.groups@),
                ),
                Err(e) => exists|i: int| error_at(measurements@, i, e),
            },
    {
        let ghost ms = measurements@;
        let mut groups: Vec<ByBenchmarkNameGroup> = Vec::new();
        let mut i: usize = 0;
        while i < measurements.len()
            invariant
                ms == measurements@,
                i <= ms.len(),
                consistent_upto(ms, i as int),
                groups_view(groups@) == groups_of(ms.take(i as int)),
            decreases measurements.len() - i,
        {
            if let Some(e) = find_conflict(measurements, i) {
                return Err(e);
            }
            let m = &measurements[i];
            let ghost before = groups_view(groups@);
            proof {
                assert(ms.take(i + 1).drop_last() =~= ms.take(i as int));
                assert(ms.take(i + 1).last() == ms[i as int]);
            }
            match find_group(&groups, &m.name) {
                Some(k) => {
                    let mut g = groups.remove(k);
                    g.by_engine.push(m.clone());
                    groups.insert(k, g);
                    proof {
                        assert(groups_view(groups@) =~= before.update(
                            k as int,
                            (before[k as int].0, before[k as int].1.push(*m)),
                        ));
                    }
                },
                None => {
                    let mut members: Vec<Measurement> = Vec::new();
                    members.push(m.clone());
                    groups.push(ByBenchmarkNameGroup { name: m.name.clone(), by_engine: members });
                    proof {
                        assert(members@ =~= seq![*m]);
                        assert(groups_view(groups@) =~= before.push((m.name@, seq![*m])));
                    }
                },
            }
            i = i + 1;
        }
        proof {
            assert(ms.take(i as int) =~= ms);
            lemma_groups_well_formed(ms);
        }
        Ok(ByBenchmarkName { groups })
    }
}

/// A speedup ratio `num / den`: an engine's statistic over the best one's.
#[derive(Clone, Copy, Debug, PartialEq, Eq, Structural)]
pub struct Ratio {
    pub num: u64,
    pub den: u64,
}

/// The statistic `stat` of a measurement.
pub open spec fn dur(m: Measurement, stat: Stat) -> u64 {
    time_stat(m.aggregate.times, stat)
}

/// `k` has the least statistic `stat`; among measurements tied for it, its
/// engine name sorts first.
pub open spec fn is_best(ms: Seq<Measurement>, stat: Stat, k: int) -> bool {
    &&& 0 <= k < ms.len()
    &&& forall|j: int| 0 <= j < ms.len() ==> dur(ms[k], stat) <= dur(#[trigger] ms[j], stat)
    &&& forall|j: int|
        0 <= j < ms.len() && dur(#[trigger] ms[j], stat) == dur(ms[k], stat) ==> !name_lt(
            ms[j].engine@,
            ms[k].engine@,
        )
}

/// The least statistic `stat` among measurements (zero for none).
pub open spec fn least(ms: Seq<Measurement>, stat: Stat) -> u64
    decreases ms.len(),
{
    if ms.len() == 0 {
        0
    } else if ms.len() == 1 {
        dur(ms[0], stat)
    } else {
        let l = least(ms.drop_last(), stat);
        let d = dur(ms.last(), stat);
        if d < l {
            d
        } else {
            l
        }
    }
}

/// The least statistic is the statistic of the best measurement.
proof fn lemma_least_is_best(ms: Seq<Measurement>, stat: Stat, k: int)
    requires
        is_best(ms, stat, k),
    ensures
        least(ms, stat) == dur(ms[k], stat),
    decreases ms.len(),
{
    lemma_least_bounds(ms, stat);
    let w = choose|w: int| 0 <= w < ms.len() && least(ms, stat) == dur(#[trigger] ms[w], stat);
    assert(dur(ms[k], stat) <= dur(ms[w], stat));
}

/// The least statistic is at most every statistic, and is one of them.
proof fn lemma_least_bounds(ms: Seq<Measurement>, stat: Stat)
    requires
        ms.len() > 0,
    ensures
        forall|j: int| 0 <= j < ms.len() ==> least(ms, stat) <= dur(#[trigger] ms[j], stat),
        exists|w: int| 0 <= w < ms.len() && least(ms, stat) == dur(#[trigger] ms[w], stat),
    decreases ms.len(),
{
    if ms.len() == 1 {
        assert(least(ms, stat) == dur(ms[0], stat));
    } else {
        let p = ms.drop_last();
        lemma_least_bounds(p, stat);
        assert forall|j: int| 0 <= j < ms.len() implies least(ms, stat) <= dur(
            #[trigger] ms[j],
            stat,
        ) by {
            if j < p.len() {
                assert(ms[j] == p[j]);
            }
        }
        let w = choose|w: int| 0 <= w < p.len() && least(p, stat) == dur(#[trigger] p[w], stat);
        assert(p[w] == ms[w]);
        if dur(ms.last(), stat) < least(p, stat) {
            assert(least(ms, stat) == dur(ms[ms.len() - 1], stat));
        } else {
            assert(least(ms, stat) == dur(ms[w], stat));
        }
    }
}

/// `k` is the first measurement of engine `engine`.
pub open spec fn is_first_engine(ms: Seq<Measurement>, engine: Seq<char>, k: int) -> bool {
    &&& 0 <= k < ms.len()
    &&& ms[k].engine@ == engine
    &&& forall|j: int| 0 <= j < k ==> (#[trigger] ms[j]).engine@ != engine
}

impl ByBenchmarkNameGroup {
    /// The position of the best measurement for `stat`.
    fn best_index(&self, stat: Stat) -> (r: usize)
        requires
            self.by_engine@.len() > 0,
        ensures
            is_best(self.by_engine@, stat, r as int),
    {
        let ms = &self.by_engine;
        let mut best: usize = 0;
        let mut i: usize = 1;
        proof {
            lemma_lex_irreflexive(name_key(ms@[0].engine@));
        }
        while i < ms.len()
            invariant
                0 <= best < i <= ms@.len(),
                ms == &self.by_engine,
                forall|j: int| 0 <= j < i ==> dur(ms@[best as int], stat) <= dur(#[trigger] ms@[j], stat),
                forall|j: int|
                    0 <= j < i && dur(#[trigger] ms@[j], stat) == dur(ms@[best as int], stat)
                        ==> !name_lt(ms@[j].engine@, ms@[best as int].engine@),
            decreases ms.len() - i,
        {
            let di = ms[i].duration(stat);
            let db = ms[best].duration(stat);
            if di < db || (di == db && name_before(ms[i].engine.as_str(), ms[best].engine.as_str())) {
                proof {
                    let ki = name_key(ms@[i as int].engine@);
                    let kb = name_key(ms@[best as int].engine@);
                    lemma_lex_irreflexive(ki);
                    assert forall|j: int|
                        0 <= j < i + 1 && dur(#[trigger] ms@[j], stat) == dur(ms@[i as int], stat)
                            implies !name_lt(ms@[j].engine@, ms@[i as int].engine@) by {
                        if j < i && di == db && name_lt(ms@[j].engine@, ms@[i as int].engine@) {
                            lemma_lex_transitive(name_key(ms@[j].engine@), ki, kb);
                        }
                    }
                }
                best = i;
            }
            i = i + 1;
        }
        best
    }

    /// The engine of the best measurement for `stat`: the least statistic, and
    /// on a tie the engine whose name sorts first.
    pub fn best(&self, stat: Stat) -> (r: &str)
        requires
            self.by_engine@.len() > 0,
        ensures
            exists|k: int| is_best(self.by_engine@, stat, k) && r@ == self.by_engine@[k].engine@,
    {
        let k = self.best_index(stat);
        self.by_engine[k].engine.as_str()
    }

    /// The speedup ratio of engine `this` for `stat`: its statistic over the best
    /// one's. `None` when the group has no measurement of `this`.
    pub fn ratio(&self, this: &str, stat: Stat) -> (r: Option<Ratio>)
        requires
            self.by_engine@.len() > 0,
        ensures
            r is None <==> !exists|k: int| 0 <= k < self.by_engine@.len() && (#[trigger] self.by_engine@[k]).engine@ == this@,
            match r {
                Some(q) => exists|k: int|
                    is_first_engine(self.by_engine@, this@, k) && q.num == dur(
                        self.by_engine@[k],
                        stat,
                    ) && q.den == least(self.by_engine@, stat) && q.num >= q.den,
                None => true,
            },
    {
        let b = self.best_index(stat);
        let best = self.by_engine[b].duration(stat);
        proof {
            lemma_least_is_best(self.by_engine@, stat, b as int);
        }
        let target = this.to_owned();
        let mut k: usize = 0;
        while k < self.by_engine.len()
            invariant
                k <= self.by_engine@.len(),
                target@ == this@,
                is_best(self.by_engine@, stat, b as int),
                best == dur(self.by_engine@[b as int], stat),
                best == least(self.by_engine@, stat),
                forall|j: int| 0 <= j < k ==> (#[trigger] self.by_engine@[j]).engine@ != this@,
            decreases self.by_engine.len() - k,
        {
            if self.by_engine[k].engine == target {
                let num = self.by_engine[k].duration(stat);
                proof {
                    assert(is_first_engine(self.by_engine@, this@, k as int));
                    assert(dur(self.by_engine@[b as int], stat) <= dur(self.by_engine@[k as int], stat));
                }
                return Some(Ratio { num, den: best });
            }
            k = k + 1;
        }
        None
    }
}

/// What one engine's summary holds: its name, its version, and its speedup
/// ratios in group order.
pub type SummaryView = (Seq<char>, Seq<char>, Seq<Ratio>);

/// `k` is the first summary of engine `name`.
pub open spec fn is_first_summary(ss: Seq<SummaryView>, name: Seq<char>, k: int) -> bool {
    &&& 0 <= k < ss.len()
    &&& ss[k].0 == name
    &&& forall|j: int| 0 <= j < k ==> ss[j].0 != name
}

/// The summaries after one more ratio of measurement `m`.
pub open spec fn add_ratio(ss: Seq<SummaryView>, m: Measurement, q: Ratio) -> Seq<SummaryView> {
    if exists|k: int| is_first_summary(ss, m.engine@, k) {
        let k = choose|k: int| is_first_summary(ss, m.engine@, k);
        ss.update(k, (ss[k].0, ss[k].1, ss[k].2.push(q)))
    } else {
        ss.push((m.engine@, m.engine_version@, seq![q]))
    }
}

/// The summaries after the ratios of the measurements of one group, whose
/// least statistic is `best`.
pub open spec fn add_group(ss: Seq<SummaryView>, ms: Seq<Measurement>, best: u64, stat: Stat) -> Seq<
    SummaryView,
>
    decreases ms.len(),
{
    if ms.len() == 0 {
        ss
    } else {
        add_ratio(
            add_group(ss, ms.drop_last(), best, stat),
            ms.last(),
            Ratio { num: dur(ms.last(), stat), den: best },
        )
    }
}

/// The summaries of every engine over groups, in order of first appearance.
pub open spec fn ranking_of(gs: Seq<GroupView>, stat: Stat) -> Seq<SummaryView>
    decreases gs.len(),
{
    if gs.len() == 0 {
        Seq::empty()
    } else {
        let g = gs.last();
        add_group(ranking_of(gs.drop_last(), stat), g.1, least(g.1, stat), stat)
    }
}

/// The summary of one engine across the groups that it takes part in.
#[derive(Clone, Debug)]
pub struct EngineSummary {
    pub name: String,
    /// The version of the engine's first measurement.
    pub version: String,
    /// The engine's speedup ratio in each group that it takes part in.
    pub ratios: Vec<Ratio>,
    /// The number of groups that the engine takes part in.
    pub count: usize,
}

impl View for EngineSummary {
    type V = SummaryView;

    open spec fn view(&self) -> SummaryView {
        (self.name@, self.version@, self.ratios@)
    }
}

/// The views of a list of summaries.
pub open spec fn summaries_view(ss: Seq<EngineSummary>) -> Seq<SummaryView> {
    ss.map_values(|s: EngineSummary| s@)
}

/// Each summary counts its ratios.
pub open spec fn counts_match(ss: Seq<EngineSummary>) -> bool {
    forall|k: int| 0 <= k < ss.len() ==> (#[trigger] ss[k]).count == ss[k].ratios@.len()
}

/// The position of the first summary of `name`, if any.
fn find_summary(ss: &Vec<EngineSummary>, name: &String) -> (r: Option<usize>)
    ensures
        match r {
            Some(k) => is_first_summary(summaries_view(ss@), name@, k as int),
            None => !exists|k: int| is_first_summary(summaries_view(ss@), name@, k),
        },
{
    let ghost v = summaries_view(ss@);
    let mut k: usize = 0;
    while k < ss.len()
        invariant
            k <= ss@.len(),
            v == summaries_view(ss@),
            forall|j: int| 0 <= j < k ==> (#[trigger] v[j]).0 != name@,
        decreases ss.len() - k,
    {
        assert(v[k as int] == ss@[k as int]@);
        if ss[k].name == *name {
            return Some(k);
        }
        k = k + 1;
    }
    None
}

/// Adds the ratio `q` of measurement `m` to the summaries.
fn push_ratio(ss: &mut Vec<EngineSummary>, m: &Measurement, q: Ratio)
    requires
        counts_match(old(ss)@),
    ensures
        summaries_view(final(ss)@) == add_ratio(summaries_view(old(ss)@), *m, q),
        counts_match(final(ss)@),
        final(ss)@.len() <= old(ss)@.len() + 1,
{
    let ghost before = summaries_view(ss@);
    match find_summary(ss, &m.engine) {
        Some(k) => {
            let mut s = ss.remove(k);
            s.ratios.push(q);
            s.count = s.ratios.len();
            ss.insert(k, s);
            proof {
                assert(summaries_view(ss@) =~= before.update(
                    k as int,
                    (before[k as int].0, before[k as int].1, before[k as int].2.push(q)),
                ));
            }
        },
        None => {
            let mut ratios: Vec<Ratio> = Vec::new();
            ratios.push(q);
            ss.push(
                EngineSummary {
                    name: m.engine.clone(),
                    version: m.engine_version.clone(),
                    ratios,
                    count: 1,
                },
            );
            proof {
                assert(ratios@ =~= seq![q]);
                assert(summaries_view(ss@) =~= before.push((m.engine@, m.engine_version@, seq![q])));
            }
        },
    }
}

impl ByBenchmarkName {
    /// Summarises every engine across the groups: its version, and its speedup
    /// ratio for `stat` in each group that it takes part in, in group order.
    /// Engines come in order of first appearance.
    pub fn ranking(&self, stat: Stat) -> (r: Vec<EngineSummary>)
        ensures
            summaries_view(r@) == ranking_of(groups_view(self.groups@), stat),
            counts_match(r@),
    {
        let ghost gv = groups_view(self.groups@);
        let mut ss: Vec<EngineSummary> = Vec::new();
        let mut g: usize = 0;
        assert(summaries_view(ss@) =~= ranking_of(gv.take(0), stat));
        while g < self.groups.len()
            invariant
                g <= self.groups@.len(),
                gv == groups_view(self.groups@),
                summaries_view(ss@) == ranking_of(gv.take(g as int), stat),
                counts_match(ss@),
            decreases self.groups.len() - g,
        {
            let group = &self.groups[g];
            let ghost start = summaries_view(ss@);
            let ghost members = group.by_engine@;
            assert(gv[g as int] == group@);
            let mut best: u64 = 0;
            if group.by_engine.len() > 0 {
                let b = group.best_index(stat);
                best = group.by_engine[b].duration(stat);
                proof {
                    lemma_least_is_best(members, stat, b as int);
                }
            }
            let mut i: usize = 0;
            while i < group.by_engine.len()
                invariant
                    i <= members.len(),
                    members == group.by_engine@,
                    best == least(members, stat),
                    summaries_view(ss@) == add_group(start, members.take(i as int), best, stat),
                    counts_match(ss@),
                decreases group.by_engine.len() - i,
            {
                let m = &group.by_engine[i];
                let q = Ratio { num: m.duration(stat), den: best };
                push_ratio(&mut ss, m, q);
                proof {
                    assert(members.take(i + 1).drop_last() =~= members.take(i as int));
                    assert(members.take(i + 1).last() == members[i as int]);
                }
                i = i + 1;
            }
            proof {
                assert(members.take(i as int) =~= members);
                assert(gv.take(g + 1).drop_last() =~= gv.take(g as int));
                assert(gv.take(g + 1).last() == gv[g as int]);
            }
            g = g + 1;
        }
        assert(gv.take(g as int) =~= gv);
        ss
    }
}

/// Some measurement of the groups is of engine `n`.
pub open spec fn has_engine(gs: Seq<GroupView>, n: Seq<char>) -> bool {
    exists|k: int, x: int|
        0 <= k < gs.len() && 0 <= x < gs[k].1.len() && (#[trigger] gs[k].1[x]).engine@ == n
}

/// Some measurement among the first `i` of `ms` is of engine `n`.
pub open spec fn has_engine_in(ms: Seq<Measurement>, i: int, n: Seq<char>) -> bool {
    exists|x: int| 0 <= x < i && (#[trigger] ms[x]).engine@ == n
}

/// Each name sorts strictly before the next, so none repeats.
pub open spec fn strictly_ascending(v: Seq<Seq<char>>) -> bool {
    forall|i: int, j: int| 0 <= i < j < v.len() ==> name_lt(#[trigger] v[i], #[trigger] v[j])
}

/// The engines of the first `g + 1` groups are those of the first `g` and
/// those of group `g`.
proof fn lemma_has_engine_step(gs: Seq<GroupView>, g: int, n: Seq<char>)
    requires
        0 <= g < gs.len(),
    ensures
        has_engine(gs.take(g + 1), n) <==> (has_engine(gs.take(g), n) || has_engine_in(
            gs[g].1,
            gs[g].1.len() as int,
            n,
        )),
{
    let a = gs.take(g + 1);
    let b = gs.take(g);
    if has_engine(a, n) {
        let (k, x) = choose|k: int, x: int|
            0 <= k < a.len() && 0 <= x < a[k].1.len() && (#[trigger] a[k].1[x]).engine@ == n;
        if k < g {
            assert(b[k] == a[k]);
            assert(b[k].1[x] == a[k].1[x]);
        } else {
            assert(gs[g].1[x] == a[k].1[x]);
        }
    }
    if has_engine(b, n) {
        let (k, x) = choose|k: int, x: int|
            0 <= k < b.len() && 0 <= x < b[k].1.len() && (#[trigger] b[k].1[x]).engine@ == n;
        assert(a[k] == b[k]);
        assert(a[k].1[x] == b[k].1[x]);
    }
    if has_engine_in(gs[g].1, gs[g].1.len() as int, n) {
        let x = choose|x: int| 0 <= x < gs[g].1.len() && (#[trigger] gs[g].1[x]).engine@ == n;
        assert(a[g] == gs[g]);
        assert(a[g].1[x] == gs[g].1[x]);
    }
}

/// The place of name `e` among ascending names: every name before it sorts
/// before `e`, and the name at it does not.
fn position(names: &Vec<String>, e: &String) -> (p: usize)
    ensures
        p <= names@.len(),
        forall|j: int| 0 <= j < p ==> name_lt((#[trigger] names@[j])@, e@),
        p < names@.len() ==> !name_lt(names@[p as int]@, e@),
{
    let mut p: usize = 0;
    while p < names.len()
        invariant
            p <= names@.len(),
            forall|j: int| 0 <= j < p ==> name_lt((#[trigger] names@[j])@, e@),
        decreases names.len() - p,
    {
        if !name_before(names[p].as_str(), e.as_str()) {
            return p;
        }
        p = p + 1;
    }
    p
}

/// Adds name `e` to ascending names, unless it is there already.
fn insert_name(names: &mut Vec<String>, e: &String)
    requires
        strictly_ascending(texts(old(names)@)),
    ensures
        strictly_ascending(texts(final(names)@)),
        forall|n: Seq<char>|
            #[trigger] texts(final(names)@).contains(n) <==> (texts(old(names)@).contains(n) || n == e@),
{
    let ghost old_t = texts(names@);
    let p = position(names, e);
    if p < names.len() && names[p] == *e {
        proof {
            assert(old_t[p as int] == e@);
        }
        return;
    }
    names.insert(p, e.clone());
    proof {
        let t = texts(names@);
        assert(t =~= old_t.insert(p as int, e@));
        let ke = name_key(e@);
        if p < old_t.len() {
            let kp = name_key(old_t[p as int]);
            assert(old_t[p as int] != e@);
            if kp == ke {
                lemma_name_key_injective(old_t[p as int], e@);
            }
            lemma_lex_total(kp, ke);
        }
        assert forall|j: int| p <= j < old_t.len() implies name_lt(e@, #[trigger] old_t[j]) by {
            if j > p {
                assert(name_lt(old_t[p as int], old_t[j]));
                lemma_lex_transitive(ke, name_key(old_t[p as int]), name_key(old_t[j]));
            }
        }
        assert forall|j: int| 0 <= j < p implies name_lt(#[trigger] old_t[j], e@) by {
            assert(old_t[j] == names@[j]@) by {
                assert(names@[j] == old(names)@[j]);
            }
        }
        assert forall|i: int, j: int| 0 <= i < j < t.len() implies name_lt(
            #[trigger] t[i],
            #[trigger] t[j],
        ) by {
            if j < p {
                assert(t[i] == old_t[i] && t[j] == old_t[j]);
            } else if j == p {
                assert(t[i] == old_t[i]);
            } else if i < p {
                assert(t[i] == old_t[i] && t[j] == old_t[j - 1]);
                lemma_lex_transitive(name_key(old_t[i]), ke, name_key(old_t[j - 1]));
            } else if i == p {
                assert(t[j] == old_t[j - 1]);
            } else {
                assert(t[i] == old_t[i - 1] && t[j] == old_t[j - 1]);
            }
        }
        assert forall|n: Seq<char>| t.contains(n) <==> (old_t.contains(n) || n == e@) by {
            if t.contains(n) {
                let j = choose|j: int| 0 <= j < t.len() && t[j] == n;
                if j < p {
                    assert(old_t[j] == n);
                } else if j > p {
                    assert(old_t[j - 1] == n);
                }
            }
            if old_t.contains(n) {
                let j = choose|j: int| 0 <= j < old_t.len() && old_t[j] == n;
                if j < p {
                    assert(t[j] == n);
                } else {
                    assert(t[j + 1] == n);
                }
            }
            if n == e@ {
                assert(t[p as int] == n);
            }
        }
    }
}

impl ByBenchmarkName {
    /// Every engine name of the measurements, once each, in ascending order.
    pub fn engine_names(&self) -> (r: Vec<String>)
        ensures
            strictly_ascending(texts(r@)),
            forall|n: Seq<char>|
                #[trigger] texts(r@).contains(n) <==> has_engine(groups_view(self.groups@), n),
    {
        let ghost gv = groups_view(self.groups@);
        let mut names: Vec<String> = Vec::new();
        let mut g: usize = 0;
        proof {
            assert(texts(names@) =~= Seq::<Seq<char>>::empty());
        }
        while g < self.groups.len()
            invariant
                g <= self.groups@.len(),
                gv == groups_view(self.groups@),
                strictly_ascending(texts(names@)),
                forall|n: Seq<char>| #[trigger] texts(names@).contains(n) <==> has_engine(gv.take(g as int), n),
            decreases self.groups.len() - g,
        {
            let group = &self.groups[g];
            let ghost members = group.by_engine@;
            assert(gv[g as int] == group@);
            let mut i: usize = 0;
            while i < group.by_engine.len()
                invariant
                    i <= members.len(),
                    members == group.by_engine@,
                    gv == groups_view(self.groups@),
                    g < gv.len(),
                    gv[g as int].1 == members,
                    strictly_ascending(texts(names@)),
                    forall|n: Seq<char>|
                        #[trigger] texts(names@).contains(n) <==> (has_engine(gv.take(g as int), n)
                            || has_engine_in(members, i as int, n)),
                decreases group.by_engine.len() - i,
            {
                let e = &group.by_engine[i].engine;
                let ghost before = texts(names@);
                insert_name(&mut names, e);
                proof {
                    assert(e@ == members[i as int].engine@);
                    assert forall|n: Seq<char>|
                        #[trigger] has_engine_in(members, i + 1, n) <==> (has_engine_in(members, i as int, n)
                            || n == e@) by {
                        if has_engine_in(members, i + 1, n) {
                            let x = choose|x: int| 0 <= x < i + 1 && (#[trigger] members[x]).engine@ == n;
                        }
                        if n == e@ {
                            assert(members[i as int].engine@ == n);
                        }
                    }
                    assert forall|n: Seq<char>|
                        #[trigger] texts(names@).contains(n) <==> (has_engine(gv.take(g as int), n)
                            || has_engine_in(members, i + 1, n)) by {
                        assert(texts(names@).contains(n) <==> (before.contains(n) || n == e@));
                        assert(before.contains(n) <==> (has_engine(gv.take(g as int), n)
                            || has_engine_in(members, i as int, n)));
                    }
                }
                i = i + 1;
            }
            proof {
                assert forall|n: Seq<char>|
                    #[trigger] texts(names@).contains(n) <==> has_engine(gv.take(g + 1), n) by {
                    lemma_has_engine_step(gv, g as int, n);
                }
            }
            g = g + 1;
        }
        proof {
            assert(gv.take(g as int) =~= gv);
        }
        names
    }
}

/// A measurement is kept when it carries no error and passes the filters.
pub open spec fn keeps(f: Filters, m: Measurement) -> bool {
    &&& m.err is None
    &&& passes(f.name, m.name@)
    &&& passes(f.engine, m.engine@)
    &&& passes(f.model, m.model@)
}

/// The measurements that are kept, in order.
pub open spec fn kept_of(ms: Seq<Measurement>, f: Filters) -> Seq<Measurement>
    decreases ms.len(),
{
    if ms.len() == 0 {
        Seq::empty()
    } else {
        let p = kept_of(ms.drop_last(), f);
        if keeps(f, ms.last()) {
            p.push(ms.last())
        } else {
            p
        }
    }
}

/// The number of measurements of benchmark `n`.
pub open spec fn name_count(ms: Seq<Measurement>, n: Seq<char>) -> nat
    decreases ms.len(),
{
    if ms.len() == 0 {
        0
    } else {
        name_count(ms.drop_last(), n) + if ms.last().name@ == n {
            1nat
        } else {
            0nat
        }
    }
}

/// The largest number of measurements that any benchmark named in `ms` has in `all`.
pub open spec fn max_count(ms: Seq<Measurement>, all: Seq<Measurement>) -> nat
    decreases ms.len(),
{
    if ms.len() == 0 {
        0
    } else {
        let c = name_count(all, ms.last().name@);
        let p = max_count(ms.drop_last(), all);
        if c > p {
            c
        } else {
            p
        }
    }
}

/// The measurements of `ms` whose benchmark has exactly `c` measurements in `all`.
pub open spec fn with_count(ms: Seq<Measurement>, all: Seq<Measurement>, c: nat) -> Seq<Measurement>
    decreases ms.len(),
{
    if ms.len() == 0 {
        Seq::empty()
    } else {
        let p = with_count(ms.drop_last(), all, c);
        if name_count(all, ms.last().name@) == c {
            p.push(ms.last())
        } else {
            p
        }
    }
}

/// The measurements that survive intersection: those of the benchmarks with
/// the most measurements.
pub open spec fn intersection_of(ms: Seq<Measurement>) -> Seq<Measurement> {
    with_count(ms, ms, max_count(ms, ms))
}

/// The number of measurements of benchmark `n`.
fn count_name(ms: &Vec<Measurement>, n: &String) -> (r: usize)
    ensures
        r == name_count(ms@, n@),
{
    let mut c: usize = 0;
    let mut i: usize = 0;
    while i < ms.len()
        invariant
            i <= ms@.len(),
            c == name_count(ms@.take(i as int), n@),
            c <= i,
        decreases ms.len() - i,
    {
        if ms[i].name == *n {
            c = c + 1;
        }
        i = i + 1;
        proof {
            assert(ms@.take(i as int).drop_last() =~= ms@.take(i - 1));
        }
    }
    assert(ms@.take(i as int) =~= ms@);
    c
}

/// Whether measurement `i` repeats the benchmark name and engine of an earlier one.
fn repeats(ms: &Vec<Measurement>, i: usize) -> (r: bool)
    requires
        i < ms@.len(),
    ensures
        r == duplicate(ms@, i as int),
{
    let m = &ms[i];
    let mut j: usize = 0;
    while j < i
        invariant
            i < ms@.len(),
            j <= i,
            m == ms@[i as int],
            forall|x: int|
                0 <= x < j ==> !((#[trigger] ms@[x]).engine@ == m.engine@ && ms@[x].name@
                    == m.name@),
        decreases i - j,
    {
        let o = &ms[j];
        if o.engine == m.engine && o.name == m.name {
            return true;
        }
        j = j + 1;
    }
    false
}

/// No kept measurement before `n` repeats the benchmark name and engine of an
/// earlier one.
pub open spec fn unique_upto(ms: Seq<Measurement>, n: int) -> bool {
    forall|i: int| 0 <= i < n ==> !#[trigger] duplicate(ms, i)
}

/// Selects the measurements to report on: those without an error that pass
/// the filters, failing on the first repeated benchmark name and engine among
/// them. With `intersection`, only the benchmarks with the most measurements
/// stay.
pub fn select_measurements(measurements: &Vec<Measurement>, filters: &Filters, intersection: bool) -> (r: Result<Vec<Measurement>, GroupError>)
    ensures
        ({
            let kept = kept_of(measurements@, *filters);
            &&& r is Ok <==> unique_upto(kept, kept.len() as int)
            &&& match r {
                Ok(v) => v@ == if intersection {
                    intersection_of(kept)
                } else {
                    kept
                },
                Err(e) => exists|i: int|
                    0 <= i < kept.len() && unique_upto(kept, i) && duplicate(kept, i) && (
                    e matches GroupError::Duplicate { name, engine } && name@ == kept[i].name@
                        && engine@ == kept[i].engine@),
            }
        }),
{
    let ghost ms = measurements@;
    let mut kept: Vec<Measurement> = Vec::new();
    let mut i: usize = 0;
    while i < measurements.len()
        invariant
            ms == measurements@,
            i <= ms.len(),
            kept@ == kept_of(ms.take(i as int), *filters),
        decreases measurements.len() - i,
    {
        let m = &measurements[i];
        proof {
            assert(ms.take(i + 1).drop_last() =~= ms.take(i as int));
            assert(ms.take(i + 1).last() == ms[i as int]);
        }
        if m.err.is_none() && filters.accepts(m) {
            kept.push(m.clone());
        }
        i = i + 1;
    }
    assert(ms.take(i as int) =~= ms);
    let ghost k = kept@;
    let mut d: usize = 0;
    while d < kept.len()
        invariant
            k == kept@,
            k == kept_of(measurements@, *filters),
            d <= k.len(),
            unique_upto(k, d as int),
        decreases kept.len() - d,
    {
        if repeats(&kept, d) {
            let m = &kept[d];
            proof {
                assert(duplicate(k, d as int));
                assert(!unique_upto(k, k.len() as int));
            }
            let e = GroupError::Duplicate { name: m.name.clone(), engine: m.engine.clone() };
            assert(k == kept_of(measurements@, *filters));
            assert(0 <= d < k.len() && unique_upto(k, d as int) && duplicate(k, d as int) && (
            e matches GroupError::Duplicate { name, engine } && name@ == k[d as int].name@
                && engine@ == k[d as int].engine@));
            return Err(e);
        }
        d = d + 1;
    }
    if !intersection {
        return Ok(kept);
    }
    let mut most: usize = 0;
    let mut j: usize = 0;
    while j < kept.len()
        invariant
            k == kept@,
            k == kept_of(measurements@, *filters),
            j <= k.len(),
            most == max_count(k.take(j as int), k),
        decreases kept.len() - j,
    {
        let c = count_name(&kept, &kept[j].name);
        if c > most {
            most = c;
        }
        proof {
            assert(k.take(j + 1).drop_last() =~= k.take(j as int));
            assert(k.take(j + 1).last() == k[j as int]);
        }
        j = j + 1;
    }
    assert(k.take(j as int) =~= k);
    let mut out: Vec<Measurement> = Vec::new();
    let mut j: usize = 0;
    while j < kept.len()
        invariant
            k == kept@,
            k == kept_of(measurements@, *filters),
            j <= k.len(),
            most == max_count(k, k),
            out@ == with_count(k.take(j as int), k, most as nat),
        decreases kept.len() - j,
    {
        if count_name(&kept, &kept[j].name) == most {
            out.push(kept[j].clone());
        }
        proof {
            assert(k.take(j + 1).drop_last() =~= k.take(j as int));
            assert(k.take(j + 1).last() == k[j as int]);
        }
        j = j + 1;
    }
    assert(k.take(j as int) =~= k);
    Ok(out)
}

/// The groups whose mark is `want`, in order.
pub open spec fn pick(gs: Seq<ByBenchmarkNameGroup>, marks: Seq<bool>, want: bool) -> Seq<
    ByBenchmarkNameGroup,
>
    decreases gs.len(),
{
    if gs.len() == 0 || marks.len() == 0 {
        Seq::empty()
    } else {
        let p = pick(gs.drop_last(), marks.drop_last(), want);
        if marks.last() == want {
            p.push(gs.last())
        } else {
            p
        }
    }
}

impl ByBenchmarkName {
    /// Splits the groups by `predicate`: those for which it holds, then the
    /// others, each part in the order the groups had.
    pub fn partition(self, predicate: impl Fn(&ByBenchmarkNameGroup) -> bool) -> (r: (
        ByBenchmarkName,
        ByBenchmarkName,
    ))
        requires
            forall|g: &ByBenchmarkNameGroup| call_requires(predicate, (g,)),
        ensures
            exists|marks: Seq<bool>|
                {
                    &&& marks.len() == self.groups@.len()
                    &&& forall|i: int|
                        0 <= i < marks.len() ==> call_ensures(
                            predicate,
                            (&self.groups@[i],),
                            #[trigger] marks[i],
                        )
                    &&& r.0.groups@ == pick(self.groups@, marks, true)
                    &&& r.1.groups@ == pick(self.groups@, marks, false)
                },
    {
        let ghost gs = self.groups@;
        let mut rest = self.groups;
        let mut yes: Vec<ByBenchmarkNameGroup> = Vec::new();
        let mut no: Vec<ByBenchmarkNameGroup> = Vec::new();
        let ghost mut marks: Seq<bool> = Seq::empty();
        assert(gs.skip(0) =~= gs);
        while rest.len() > 0
            invariant
                forall|g: &ByBenchmarkNameGroup| call_requires(predicate, (g,)),
                marks.len() <= gs.len(),
                rest@ == gs.skip(marks.len() as int),
                yes@ == pick(gs.take(marks.len() as int), marks, true),
                no@ == pick(gs.take(marks.len() as int), marks, false),
                forall|i: int|
                    0 <= i < marks.len() ==> call_ensures(predicate, (&gs[i],), #[trigger] marks[i]),
            decreases rest.len(),
        {
            let ghost n = marks.len() as int;
            let g = rest.remove(0);
            assert(g == gs[n]);
            let b = predicate(&g);
            let ghost before = marks;
            proof {
                marks = marks.push(b);
                assert(gs.take(n + 1).drop_last() =~= gs.take(n));
                assert(marks.drop_last() =~= before);
                assert(gs.take(n + 1).last() == gs[n]);
                assert(rest@ =~= gs.skip(n + 1));
            }
            if b {
                yes.push(g);
            } else {
                no.push(g);
            }
        }
        assert(gs.take(marks.len() as int) =~= gs);
        (ByBenchmarkName { groups: yes }, ByBenchmarkName { groups: no })
    }
}

} // verus!
