//! Whitelist and blacklist rules over names, where the last rule that matches
//! decides.
use vstd::prelude::*;

use crate::measurement::Measurement;

verus! {

#[verifier::external_type_specification]
#[verifier::external_body]
pub struct ExLiteRegex(regex_lite::Regex);

/// Whether regex_lite accepts `pattern`.
pub uninterp spec fn lite_compiles(pattern: Seq<char>) -> bool;

/// Whether the regex of `pattern` matches somewhere in `subject`.
pub uninterp spec fn lite_matches(pattern: Seq<char>, subject: Seq<char>) -> bool;

/// One rule: a pattern, and whether a match excludes (blacklist) or admits.
#[derive(Debug)]
pub struct FilterRule {
    re: regex_lite::Regex,
    pattern: String,
    blacklist: bool,
}

/// A pattern that regex_lite refuses.
#[derive(Clone, Debug)]
pub struct InvalidPattern {
    pub pattern: String,
}

/// Relies on regex_lite's `Regex::new`: whether it succeeds depends on the
/// pattern alone.
#[verifier::external_body]
fn compile(pattern: &str) -> (r: Option<regex_lite::Regex>)
    ensures
        r is Some <==> lite_compiles(pattern@),
{
    regex_lite::Regex::new(pattern).ok()
}

/// Relies on regex_lite's `Regex::is_match`, an unanchored search, on the regex
/// that `FilterRule::new` compiled from the rule's pattern; the fields are
/// private, so no rule holds another regex.
#[verifier::external_body]
fn rule_is_match(rule: &FilterRule, subject: &str) -> (r: bool)
    ensures
        r == lite_matches(rule.pattern@, subject@),
{
    rule.re.is_match(subject)
}

impl FilterRule {
    /// The pattern of this rule.
    pub closed spec fn spec_pattern(&self) -> Seq<char> {
        self.pattern@
    }

    /// Whether this rule excludes what it matches.
    pub closed spec fn spec_blacklist(&self) -> bool {
        self.blacklist
    }

    /// A rule for `pattern`; an error when regex_lite refuses the pattern.
    pub fn new(pattern: &str, blacklist: bool) -> (r: Result<FilterRule, InvalidPattern>)
        ensures
            r is Ok <==> lite_compiles(pattern@),
            match r {
                Ok(rule) => rule.spec_pattern() == pattern@ && rule.spec_blacklist() == blacklist,
                Err(e) => e.pattern@ == pattern@,
            },
    {
        match compile(pattern) {
            Some(re) => Ok(FilterRule { re, pattern: pattern.to_owned(), blacklist }),
            None => Err(InvalidPattern { pattern: pattern.to_owned() }),
        }
    }

    /// The pattern of this rule.
    pub fn pattern(&self) -> (r: &str)
        ensures
            r@ == self.spec_pattern(),
    {
        self.pattern.as_str()
    }

    /// Whether this rule excludes what it matches.
    pub fn is_blacklist(&self) -> (r: bool)
        ensures
            r == self.spec_blacklist(),
    {
        self.blacklist
    }
}

/// Whether every rule is a blacklist rule.
pub open spec fn all_blacklist(blacklist: Seq<bool>) -> bool {
    forall|i: int| 0 <= i < blacklist.len() ==> #[trigger] blacklist[i]
}

/// The verdict after scanning rules in order from `start`: each matching rule
/// sets it to whether it is a whitelist rule.
pub open spec fn scan(blacklist: Seq<bool>, matched: Seq<bool>, start: bool) -> bool
    decreases blacklist.len(),
{
    if blacklist.len() == 0 {
        start
    } else {
        let before = scan(blacklist.drop_last(), matched.drop_last(), start);
        if matched.last() {
            !blacklist.last()
        } else {
            before
        }
    }
}

/// The verdict of rules whose kinds are `blacklist` and whose matches on a
/// subject are `matched`: with no rules everything passes; otherwise the
/// verdict starts as "pass" only when every rule is a blacklist rule, and
/// the last matching rule decides.
pub open spec fn verdict(blacklist: Seq<bool>, matched: Seq<bool>) -> bool {
    if blacklist.len() == 0 {
        true
    } else {
        scan(blacklist, matched, all_blacklist(blacklist))
    }
}

/// Decides a subject from the kinds of the rules and whether each matched it.
pub fn decide(blacklist: &[bool], matched: &[bool]) -> (r: bool)
    requires
        blacklist@.len() == matched@.len(),
    ensures
        r == verdict(blacklist@, matched@),
{
    let n = blacklist.len();
    if n == 0 {
        return true;
    }
    let mut all = true;
    let mut i: usize = 0;
    while i < n
        invariant
            n == blacklist@.len(),
            i <= n,
            all == (forall|j: int| 0 <= j < i ==> #[trigger] blacklist@[j]),
        decreases n - i,
    {
        if !blacklist[i] {
            all = false;
        }
        i = i + 1;
    }
    let start = all;
    let mut verdict_so_far = start;
    let mut k: usize = 0;
    while k < n
        invariant
            n == blacklist@.len() == matched@.len(),
            k <= n,
            verdict_so_far == scan(blacklist@.take(k as int), matched@.take(k as int), start),
        decreases n - k,
    {
        if matched[k] {
            verdict_so_far = !blacklist[k];
        }
        k = k + 1;
        assert(blacklist@.take(k as int).drop_last() =~= blacklist@.take(k - 1));
        assert(matched@.take(k as int).drop_last() =~= matched@.take(k - 1));
    }
    assert(blacklist@.take(n as int) =~= blacklist@);
    assert(matched@.take(n as int) =~= matched@);
    verdict_so_far
}

/// When some rule matches, the last rule that matches alone decides.
pub proof fn lemma_last_match_wins(blacklist: Seq<bool>, matched: Seq<bool>, i: int)
    requires
        blacklist.len() == matched.len(),
        0 <= i < matched.len(),
        matched[i],
        forall|j: int| i < j < matched.len() ==> !#[trigger] matched[j],
    ensures
        verdict(blacklist, matched) == !blacklist[i],
    decreases matched.len(),
{
    let start = all_blacklist(blacklist);
    lemma_scan_last(blacklist, matched, i, start);
}

proof fn lemma_scan_last(blacklist: Seq<bool>, matched: Seq<bool>, i: int, start: bool)
    requires
        blacklist.len() == matched.len(),
        0 <= i < matched.len(),
        matched[i],
        forall|j: int| i < j < matched.len() ==> !#[trigger] matched[j],
    ensures
        scan(blacklist, matched, start) == !blacklist[i],
    decreases matched.len(),
{
    if i < matched.len() - 1 {
        let b = blacklist.drop_last();
        let m = matched.drop_last();
        assert(!matched[matched.len() - 1]);
        assert forall|j: int| i < j < m.len() implies !#[trigger] m[j] by {
            assert(m[j] == matched[j]);
        }
        lemma_scan_last(b, m, i, start);
    }
}

/// An ordered list of rules; the order is kept as the rules were added.
#[derive(Debug)]
pub struct Filter {
    rules: Vec<FilterRule>,
}

/// The kinds of a list of rules.
pub open spec fn kinds(rules: Seq<FilterRule>) -> Seq<bool> {
    rules.map_values(|r: FilterRule| r.spec_blacklist())
}

/// Whether each rule of a list matches `subject`.
pub open spec fn matches(rules: Seq<FilterRule>, subject: Seq<char>) -> Seq<bool> {
    rules.map_values(|r: FilterRule| lite_matches(r.spec_pattern(), subject))
}

impl Filter {
    /// The rules, in the order in which they were added.
    pub closed spec fn spec_rules(&self) -> Seq<FilterRule> {
        self.rules@
    }

    /// A filter without rules, which lets everything through.
    pub fn new() -> (r: Filter)
        ensures
            r.spec_rules().len() == 0,
    {
        Filter { rules: Vec::new() }
    }

    /// A filter with one whitelist rule for `pat`.
    pub fn from_pattern(pat: &str) -> (r: Result<Filter, InvalidPattern>)
        ensures
            r is Ok <==> lite_compiles(pat@),
            match r {
                Ok(f) => f.spec_rules().len() == 1 && f.spec_rules()[0].spec_pattern() == pat@
                    && !f.spec_rules()[0].spec_blacklist(),
                Err(e) => e.pattern@ == pat@,
            },
    {
        let mut filter = Filter::new();
        match filter.whitelist(pat) {
            Ok(()) => Ok(filter),
            Err(e) => Err(e),
        }
    }

    /// Appends a rule.
    pub fn add(&mut self, rule: FilterRule)
        ensures
            final(self).spec_rules() == old(self).spec_rules().push(rule),
    {
        self.rules.push(rule);
    }

    /// Appends a whitelist rule for `pattern`; an error, and no change, when the
    /// pattern is refused.
    pub fn whitelist(&mut self, pattern: &str) -> (r: Result<(), InvalidPattern>)
        ensures
            r is Ok <==> lite_compiles(pattern@),
            match r {
                Ok(()) => exists|rule: FilterRule|
                    rule.spec_pattern() == pattern@ && !rule.spec_blacklist()
                        && final(self).spec_rules() == old(self).spec_rules().push(rule),
                Err(e) => final(self).spec_rules() == old(self).spec_rules() && e.pattern@
                    == pattern@,
            },
    {
        match FilterRule::new(pattern, false) {
            Ok(rule) => {
                self.rules.push(rule);
                Ok(())
            },
            Err(e) => Err(e),
        }
    }

    /// Appends a blacklist rule for `pattern`; an error, and no change, when the
    /// pattern is refused.
    pub fn blacklist(&mut self, pattern: &str) -> (r: Result<(), InvalidPattern>)
        ensures
            r is Ok <==> lite_compiles(pattern@),
            match r {
                Ok(()) => exists|rule: FilterRule|
                    rule.spec_pattern() == pattern@ && rule.spec_blacklist()
                        && final(self).spec_rules() == old(self).spec_rules().push(rule),
                Err(e) => final(self).spec_rules() == old(self).spec_rules() && e.pattern@
                    == pattern@,
            },
    {
        match FilterRule::new(pattern, true) {
            Ok(rule) => {
                self.rules.push(rule);
                Ok(())
            },
            Err(e) => Err(e),
        }
    }

    /// Whether `subject` passes this filter.
    pub fn accepts(&self, subject: &str) -> (r: bool)
        ensures
            r == verdict(kinds(self.spec_rules()), matches(self.spec_rules(), subject@)),
    {
        let mut blacklist: Vec<bool> = Vec::new();
        let mut matched: Vec<bool> = Vec::new();
        let mut i: usize = 0;
        while i < self.rules.len()
            invariant
                i <= self.rules@.len(),
                blacklist@ == kinds(self.rules@.take(i as int)),
                matched@ == matches(self.rules@.take(i as int), subject@),
            decreases self.rules.len() - i,
        {
            let rule = &self.rules[i];
            blacklist.push(rule.blacklist);
            matched.push(rule_is_match(rule, subject));
            i = i + 1;
            assert(blacklist@ =~= kinds(self.rules@.take(i as int)));
            assert(matched@ =~= matches(self.rules@.take(i as int), subject@));
        }
        assert(self.rules@.take(i as int) =~= self.rules@);
        decide(blacklist.as_slice(), matched.as_slice())
    }
}

impl Default for Filter {
    fn default() -> (r: Filter)
        ensures
            r.spec_rules().len() == 0,
    {
        Filter::new()
    }
}

/// The filters on benchmark names, models and engine names.
#[derive(Debug)]
pub struct Filters {
    pub name: Filter,
    pub model: Filter,
    pub engine: Filter,
    /// Whether engines whose version is unknown are left out.
    pub ignore_missing_engines: bool,
}

/// Whether `f` lets `subject` through.
pub open spec fn passes(f: Filter, subject: Seq<char>) -> bool {
    verdict(kinds(f.spec_rules()), matches(f.spec_rules(), subject))
}

impl Filters {
    /// Whether a measurement passes the name, engine and model filters.
    pub fn accepts(&self, m: &Measurement) -> (r: bool)
        ensures
            r == (passes(self.name, m.name@) && passes(self.engine, m.engine@) && passes(
                self.model,
                m.model@,
            )),
    {
        if !self.name.accepts(m.name.as_str()) {
            return false;
        }
        if !self.engine.accepts(m.engine.as_str()) {
            return false;
        }
        if !self.model.accepts(m.model.as_str()) {
            return false;
        }
        true
    }
}

} // verus!
