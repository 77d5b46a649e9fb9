//! Durations written for people in a short form such as `12.34ms`: a decimal
//! with two places and a unit of `s`, `ms`, `us` or `ns`.
use vstd::prelude::*;

use crate::decimal::{decimal, digits_value, is_decimal, is_digit, parse_u64, push_decimal_wide};
use crate::results::first_index;

verus! {

/// A duration, in nanoseconds, that is written in the short form.
#[derive(Clone, Copy, Debug, Default, PartialEq, Eq, Structural)]
pub struct ShortHumanDuration {
    pub nanos: u64,
}

/// The nanoseconds in the unit that a duration is written in: the largest unit
/// in which it is at least 0.95.
pub open spec fn scale_of(v: u64) -> int {
    if v >= 950_000_000 {
        1_000_000_000
    } else if v >= 950_000 {
        1_000_000
    } else if v >= 950 {
        1_000
    } else {
        1
    }
}

/// The unit's name in that case.
pub open spec fn suffix_of(v: u64) -> Seq<u8> {
    if v >= 950_000_000 {
        seq![115u8]
    } else if v >= 950_000 {
        seq![109u8, 115]
    } else if v >= 950 {
        seq![117u8, 115]
    } else {
        seq![110u8, 115]
    }
}

/// The duration in hundredths of its unit, rounded half up.
pub open spec fn hundredths(v: u64) -> int {
    (v * 100 + scale_of(v) / 2) / scale_of(v)
}

/// Two decimal digits of `n`, which is below one hundred.
pub open spec fn two_digits(n: int) -> Seq<u8> {
    seq![(48 + n / 10) as u8, (48 + n % 10) as u8]
}

/// The short form of a duration of `v` nanoseconds.
pub open spec fn short_text(v: u64) -> Seq<u8> {
    let q = hundredths(v);
    decimal((q / 100) as nat) + seq![46u8] + two_digits(q % 100) + suffix_of(v)
}

/// The nanoseconds of a unit name.
pub open spec fn unit_scale(u: Seq<u8>) -> Option<int> {
    if u == seq![110u8, 115] {
        Some(1)
    } else if u == seq![117u8, 115] {
        Some(1_000)
    } else if u == seq![109u8, 115] {
        Some(1_000_000)
    } else {
        None
    }
}

/// Ten to the power `k`.
pub open spec fn pow10(k: nat) -> int
    decreases k,
{
    if k == 0 {
        1
    } else {
        10 * pow10((k - 1) as nat)
    }
}

/// Every byte is a digit (none at all is allowed).
pub open spec fn all_digits(s: Seq<u8>) -> bool {
    forall|i: int| 0 <= i < s.len() ==> is_digit(#[trigger] s[i])
}

/// The nanoseconds that a number `body` of units of `scale` nanoseconds
/// denotes: digits with an optional fraction, or a fraction alone; fractions
/// finer than a nanosecond are dropped, and at most nine fraction digits are
/// read.
pub open spec fn number_nanos(body: Seq<u8>, scale: int) -> Option<int> {
    let (whole, frac, dot) = match first_index(body, 46u8) {
        None => (body, Seq::<u8>::empty(), false),
        Some(p) => (body.take(p), body.skip(p + 1), true),
    };
    let shaped = if whole.len() > 0 {
        is_decimal(whole) && all_digits(frac)
    } else {
        dot && is_decimal(frac)
    };
    if !shaped || frac.len() > 9 {
        None
    } else {
        Some(digits_value(whole) * scale + digits_value(frac) * scale / pow10(frac.len()))
    }
}

/// The duration that a short form denotes, if it is one; `0` alone is zero.
pub open spec fn parse_short(s: Seq<u8>) -> Option<u64> {
    if s == seq![48u8] {
        Some(0)
    } else {
        let n = s.len() as int;
        let (body, scale) = if n >= 2 && unit_scale(s.skip(n - 2)) is Some {
            (s.take(n - 2), unit_scale(s.skip(n - 2)).unwrap())
        } else if n >= 1 && s[n - 1] == 115u8 {
            (s.take(n - 1), 1_000_000_000)
        } else {
            (s, 0)
        };
        if scale == 0 {
            None
        } else {
            match number_nanos(body, scale) {
                Some(v) => if v <= u64::MAX {
                    Some(v as u64)
                } else {
                    None
                },
                None => None,
            }
        }
    }
}

/// The nanoseconds of the unit and its name.
fn unit_for(v: u64) -> (r: (u64, Vec<u8>))
    ensures
        r.0 == scale_of(v),
        r.1@ == suffix_of(v),
{
    let (scale, suffix) = if v >= 950_000_000 {
        (1_000_000_000u64, vec![115u8])
    } else if v >= 950_000 {
        (1_000_000u64, vec![109u8, 115])
    } else if v >= 950 {
        (1_000u64, vec![117u8, 115])
    } else {
        (1u64, vec![110u8, 115])
    };
    assert(suffix@ =~= suffix_of(v));
    (scale, suffix)
}

impl ShortHumanDuration {
    /// Writes the duration in its short form: two decimal places of the largest
    /// unit in which it is at least 0.95, rounded half up.
    pub fn to_bytes(&self) -> (r: Vec<u8>)
        ensures
            r@ == short_text(self.nanos),
    {
        let v = self.nanos;
        let (scale, suffix) = unit_for(v);
        let q: u128 = (v as u128 * 100 + (scale as u128) / 2) / (scale as u128);
        let mut out: Vec<u8> = Vec::new();
        push_decimal_wide(&mut out, q / 100);
        out.push(46);
        let frac = q % 100;
        out.push((48 + frac / 10) as u8);
        out.push((48 + frac % 10) as u8);
        let mut i: usize = 0;
        let ghost before = out@;
        while i < suffix.len()
            invariant
                i <= suffix@.len(),
                out@ == before + suffix@.take(i as int),
            decreases suffix.len() - i,
        {
            out.push(suffix[i]);
            i = i + 1;
            assert(out@ =~= before + suffix@.take(i as int));
        }
        assert(suffix@.take(i as int) =~= suffix@);
        assert(out@ =~= short_text(v));
        out
    }

    /// Reads a duration in the short form: a decimal with an optional
    /// fraction of at most nine digits, then `s`, `ms`, `us` or `ns`; or `0`.
    pub fn parse(s: &[u8]) -> (r: Option<ShortHumanDuration>)
        ensures
            match r {
                Some(d) => parse_short(s@) == Some(d.nanos),
                None => parse_short(s@) is None,
            },
    {
        let n = s.len();
        if n == 1 && s[0] == 48 {
            assert(s@ =~= seq![48u8]);
            return Some(ShortHumanDuration { nanos: 0 });
        }
        proof {
            if s@ == seq![48u8] {
                assert(s@.len() == 1);
            }
        }
        let mut end = n;
        let mut scale: u64 = 0;
        if n >= 2 {
            let a = s[n - 2];
            let b = s[n - 1];
            let ghost tail = s@.skip(n - 2);
            assert(tail =~= seq![a, b]);
            if b == 115 && a == 110 {
                scale = 1;
            } else if b == 115 && a == 117 {
                scale = 1_000;
            } else if b == 115 && a == 109 {
                scale = 1_000_000;
            }
            if scale != 0 {
                end = n - 2;
            }
        }
        if scale == 0 && n >= 1 && s[n - 1] == 115 {
            scale = 1_000_000_000;
            end = n - 1;
        }
        if scale == 0 {
            return None;
        }
        let ghost body = s@.take(end as int);
        assert(s@.subrange(0, end as int) =~= body);
        let v = match number_in(s, end, scale) {
            None => return None,
            Some(v) => v,
        };
        if v > u64::MAX as u128 {
            return None;
        }
        Some(ShortHumanDuration { nanos: v as u64 })
    }
}

/// Ten to the power `k`, for `k` up to nine.
fn pow10_small(k: usize) -> (r: u64)
    requires
        k <= 9,
    ensures
        r == pow10(k as nat),
        r <= 1_000_000_000,
{
    let mut p: u64 = 1;
    let mut i: usize = 0;
    while i < k
        invariant
            i <= k <= 9,
            p == pow10(i as nat),
        decreases k - i,
    {
        proof {
            lemma_pow10_bounds((i + 1) as nat);
        }
        p = p * 10;
        i = i + 1;
    }
    proof {
        lemma_pow10_bounds(i as nat);
    }
    p
}

proof fn lemma_pow10_bounds(k: nat)
    ensures
        pow10(k) >= 1,
        k <= 9 ==> pow10(k) <= 1_000_000_000,
        k >= 1 ==> pow10(k) == 10 * pow10((k - 1) as nat),
    decreases k,
{
    reveal_with_fuel(pow10, 10);
    if k > 0 {
        lemma_pow10_bounds((k - 1) as nat);
    }
}

/// The nanoseconds that `s[..end]` denotes in units of `scale` nanoseconds.
fn number_in(s: &[u8], end: usize, scale: u64) -> (r: Option<u128>)
    requires
        end <= s@.len(),
        scale == 1 || scale == 1_000 || scale == 1_000_000 || scale == 1_000_000_000,
    ensures
        match r {
            Some(v) => number_nanos(s@.take(end as int), scale as int) == Some(v as int),
            None => match number_nanos(s@.take(end as int), scale as int) {
                None => true,
                Some(v) => v > u64::MAX,
            },
        },
{
    let ghost body = s@.take(end as int);
    let mut dot: usize = end;
    let mut i: usize = 0;
    while i < end
        invariant
            i <= end <= s@.len(),
            body == s@.take(end as int),
            dot <= end,
            dot == end ==> forall|j: int| 0 <= j < i ==> s@[j] != 46u8,
            dot < end ==> dot < i && s@[dot as int] == 46u8 && forall|j: int|
                0 <= j < dot ==> s@[j] != 46u8,
        decreases end - i,
    {
        if dot == end && s[i] == 46 {
            dot = i;
        }
        i = i + 1;
    }
    proof {
        if dot < end {
            assert forall|j: int| 0 <= j < dot implies body[j] != 46u8 by {
                assert(body[j] == s@[j]);
            }
            crate::results::lemma_first_index_at(body, 46u8, dot as int);
            assert(body.take(dot as int) =~= s@.subrange(0, dot as int));
            assert(body.skip(dot + 1) =~= s@.subrange(dot + 1, end as int));
        } else {
            if exists|c: int| crate::results::is_first(body, 46u8, c) {
                let c = choose|c: int| crate::results::is_first(body, 46u8, c);
                assert(body[c] == s@[c]);
            }
            assert(body =~= s@.subrange(0, end as int));
        }
    }
    let has_dot = dot < end;
    let frac_lo = if has_dot {
        dot + 1
    } else {
        end
    };
    let ghost whole = s@.subrange(0, dot as int);
    let ghost frac = s@.subrange(frac_lo as int, end as int);
    assert(frac_lo == end ==> frac =~= Seq::<u8>::empty());
    if end - frac_lo > 9 {
        return None;
    }
    if !digits_only(s, frac_lo, end) {
        proof {
            assert(!is_decimal(frac));
        }
        return None;
    }
    let whole_value: u64 = if dot > 0 {
        match parse_u64(s, 0, dot) {
            None => {
                proof {
                    if is_decimal(whole) {
                        assert(digits_value(whole) * (scale as int) >= digits_value(whole))
                            by (nonlinear_arith)
                            requires
                                scale >= 1,
                        ;
                        lemma_digits_below(frac);
                        assert(digits_value(frac) * (scale as int) / pow10(frac.len()) >= 0)
                            by (nonlinear_arith)
                            requires
                                digits_value(frac) >= 0,
                                scale >= 1,
                                pow10(frac.len()) >= 1,
                        ;
                        lemma_pow10_bounds(frac.len());
                    }
                }
                return None;
            },
            Some(w) => w,
        }
    } else {
        if !has_dot || frac_lo == end {
            return None;
        }
        0
    };
    let frac_value: u64 = if frac_lo < end {
        match parse_u64(s, frac_lo, end) {
            None => {
                proof {
                    lemma_digits_below(frac);
                    lemma_pow10_bounds(frac.len());
                    let p = pow10(frac.len());
                    assert(p <= 1_000_000_000) by {
                        lemma_pow_mono(frac.len());
                    }
                }
                return None;
            },
            Some(f) => f,
        }
    } else {
        0
    };
    proof {
        assert(whole.len() == 0 ==> digits_value(whole) == 0);
        assert(frac.len() == 0 ==> digits_value(frac) == 0);
    }
    let p = pow10_small(end - frac_lo);
    proof {
        assert(frac_value < pow10(frac.len())) by {
            lemma_digits_below(frac);
        }
        assert((whole_value as int) * (scale as int) <= u64::MAX as int * 1_000_000_000)
            by (nonlinear_arith)
            requires
                whole_value <= u64::MAX,
                scale <= 1_000_000_000,
        ;
        assert((frac_value as int) * (scale as int) <= 1_000_000_000 * 1_000_000_000int)
            by (nonlinear_arith)
            requires
                frac_value <= 1_000_000_000,
                scale <= 1_000_000_000,
        ;
    }
    let v = (whole_value as u128) * (scale as u128) + (frac_value as u128) * (scale as u128) / (
    p as u128);
    Some(v)
}

/// Whether `s[lo..hi]` holds digits alone.
fn digits_only(s: &[u8], lo: usize, hi: usize) -> (r: bool)
    requires
        lo <= hi <= s@.len(),
    ensures
        r == all_digits(s@.subrange(lo as int, hi as int)),
{
    let ghost t = s@.subrange(lo as int, hi as int);
    let mut k: usize = lo;
    while k < hi
        invariant
            lo <= k <= hi <= s@.len(),
            t == s@.subrange(lo as int, hi as int),
            forall|j: int| lo <= j < k ==> is_digit(#[trigger] s@[j]),
        decreases hi - k,
    {
        if s[k] < 48 || s[k] > 57 {
            assert(t[k - lo] == s@[k as int]);
            return false;
        }
        k = k + 1;
    }
    assert forall|j: int| 0 <= j < t.len() implies is_digit(#[trigger] t[j]) by {
        assert(t[j] == s@[lo + j]);
    }
    true
}

/// Ten to a power of at most nine is at most a billion.
proof fn lemma_pow_mono(k: nat)
    requires
        k <= 9,
    ensures
        pow10(k) <= 1_000_000_000,
{
    lemma_pow10_bounds(k);
}

/// A run of `k` digits denotes less than ten to the `k`.
proof fn lemma_digits_below(s: Seq<u8>)
    requires
        all_digits(s),
    ensures
        digits_value(s) < pow10(s.len()),
    decreases s.len(),
{
    if s.len() > 0 {
        let p = s.drop_last();
        assert(all_digits(p)) by {
            assert forall|j: int| 0 <= j < p.len() implies is_digit(#[trigger] p[j]) by {
                assert(p[j] == s[j]);
            }
        }
        lemma_digits_below(p);
        assert(is_digit(s[s.len() - 1]));
        lemma_pow10_bounds(s.len());
        assert(digits_value(s) < pow10(s.len())) by (nonlinear_arith)
            requires
                digits_value(s) == digits_value(p) * 10 + (s.last() - 48),
                digits_value(p) < pow10(p.len()),
                s.last() - 48 <= 9,
                pow10(s.len()) == 10 * pow10(p.len()),
                digits_value(p) >= 0,
        ;
    } else {
        reveal_with_fuel(pow10, 1);
    }
}

} // verus!
