//! The result stream that a runner writes back: one line per measured
//! iteration, `<nanoseconds>,<count>`, in ASCII decimal.
use vstd::prelude::*;

use crate::decimal::{decimal, is_digit, lemma_decimal_parses, push_decimal};
use crate::klv::parse_number;

verus! {

/// `i` is the position of the first `x` in `s`.
pub open spec fn is_first(s: Seq<u8>, x: u8, i: int) -> bool {
    &&& 0 <= i < s.len()
    &&& s[i] == x
    &&& forall|j: int| 0 <= j < i ==> s[j] != x
}

/// The position of the first `x` in `s`, if there is one.
pub open spec fn first_index(s: Seq<u8>, x: u8) -> Option<int> {
    if exists|i: int| is_first(s, x, i) {
        Some(choose|i: int| is_first(s, x, i))
    } else {
        None
    }
}

/// The first `x` of `s` is at `i`, when `s[..i]` holds none and `s[i]` is one.
pub proof fn lemma_first_index_at(s: Seq<u8>, x: u8, i: int)
    requires
        0 <= i < s.len(),
        s[i] == x,
        forall|j: int| 0 <= j < i ==> s[j] != x,
    ensures
        first_index(s, x) == Some(i),
{
    assert(is_first(s, x, i));
    let c = choose|c: int| is_first(s, x, c);
    assert(is_first(s, x, c));
    if c < i {
        assert(s[c] != x);
    }
    if c > i {
        assert(s[i] != x);
    }
}

/// The line at the start of `s`, without its terminator (`\n` or `\r\n`), and
/// the number of bytes that it spans with its terminator. A last line needs
/// no terminator.
pub open spec fn next_line(s: Seq<u8>) -> (Seq<u8>, int) {
    match first_index(s, 10u8) {
        None => (s, s.len() as int),
        Some(i) => if i > 0 && s[i - 1] == 13u8 {
            (s.take(i - 1), i + 1)
        } else {
            (s.take(i), i + 1)
        },
    }
}

/// Ways in which a result stream can be wrong.
#[derive(Clone, Copy, Debug, PartialEq, Eq, Structural)]
pub enum SampleErrorKind {
    /// A line holds no `,`.
    MissingComma,
    /// The duration field is not a decimal `u64`.
    InvalidDuration,
    /// The count field is not a decimal `u64`.
    InvalidCount,
    /// The count differs from the count that the benchmark expects.
    CountMismatch,
}

/// A failure to read a result stream, with the offending line.
#[derive(Clone, Debug)]
pub struct SampleError {
    pub kind: SampleErrorKind,
    pub line: Vec<u8>,
    /// The count that every sample must report.
    pub expected: u64,
    /// The count that the line reported, when it is a count mismatch.
    pub got: Option<u64>,
}

/// A duration as it is recorded: zero becomes one nanosecond.
pub open spec fn effective_nanos(d: u64) -> u64 {
    if d == 0 {
        1
    } else {
        d
    }
}

/// Reads one line as a sample duration, checking its count.
pub open spec fn parse_line(l: Seq<u8>, expected: u64) -> Result<u64, SampleErrorKind> {
    match first_index(l, 44u8) {
        None => Err(SampleErrorKind::MissingComma),
        Some(c) => match parse_number(l.take(c)) {
            None => Err(SampleErrorKind::InvalidDuration),
            Some(d) => match parse_number(l.skip(c + 1)) {
                None => Err(SampleErrorKind::InvalidCount),
                Some(n) => if n != expected {
                    Err(SampleErrorKind::CountMismatch)
                } else {
                    Ok(effective_nanos(d))
                },
            },
        },
    }
}

/// Reads every line of `s` as a sample duration; the first bad line fails the
/// whole stream.
pub open spec fn parse_stream(s: Seq<u8>, expected: u64) -> Result<Seq<u64>, SampleErrorKind>
    decreases s.len(),
{
    if s.len() == 0 {
        Ok(Seq::empty())
    } else {
        let (l, n) = next_line(s);
        match parse_line(l, expected) {
            Err(e) => Err(e),
            Ok(d) => if 0 < n <= s.len() {
                match parse_stream(s.skip(n), expected) {
                    Err(e) => Err(e),
                    Ok(rest) => Ok(seq![d] + rest),
                }
            } else {
                Err(SampleErrorKind::MissingComma)
            },
        }
    }
}

/// The position of the first `x` at or after `start`.
fn find_byte(b: &[u8], start: usize, x: u8) -> (r: Option<usize>)
    requires
        start <= b@.len(),
    ensures
        match r {
            None => first_index(b@.skip(start as int), x) is None && forall|j: int|
                start <= j < b@.len() ==> b@[j] != x,
            Some(i) => start <= i < b@.len() && first_index(b@.skip(start as int), x) == Some(
                i - start,
            ) && b@[i as int] == x && forall|j: int| start <= j < i ==> b@[j] != x,
        },
{
    let ghost s = b@.skip(start as int);
    let mut i: usize = start;
    while i < b.len()
        invariant
            start <= i <= b@.len(),
            s == b@.skip(start as int),
            forall|j: int| start <= j < i ==> b@[j] != x,
        decreases b.len() - i,
    {
        if b[i] == x {
            proof {
                assert forall|j: int| 0 <= j < i - start implies s[j] != x by {
                    assert(s[j] == b@[start + j]);
                }
                lemma_first_index_at(s, x, i - start);
            }
            return Some(i);
        }
        i = i + 1;
    }
    proof {
        if exists|c: int| is_first(s, x, c) {
            let c = choose|c: int| is_first(s, x, c);
            assert(s[c] == b@[start + c]);
        }
    }
    None
}

/// Parses `b[lo..hi]` as a decimal `u64`.
fn number_in(b: &[u8], lo: usize, hi: usize) -> (r: Option<u64>)
    requires
        lo <= hi <= b@.len(),
    ensures
        r == parse_number(b@.subrange(lo as int, hi as int)),
{
    crate::decimal::parse_u64(b, lo, hi)
}

/// Reads the line `b[lo..hi]` as a sample duration in nanoseconds.
fn read_line(b: &[u8], lo: usize, hi: usize, expected: u64) -> (r: Result<
    u64,
    (SampleErrorKind, Option<u64>),
>)
    requires
        lo <= hi <= b@.len(),
    ensures
        match r {
            Ok(d) => parse_line(b@.subrange(lo as int, hi as int), expected) == Ok::<
                u64,
                SampleErrorKind,
            >(d),
            Err((k, got)) => parse_line(b@.subrange(lo as int, hi as int), expected) == Err::<
                u64,
                SampleErrorKind,
            >(k) && (k == SampleErrorKind::CountMismatch <==> got is Some) && (got matches Some(
                g,
            ) ==> g != expected),
        },
{
    let ghost l = b@.subrange(lo as int, hi as int);
    let c = match find_byte(b, lo, 44) {
        None => hi,
        Some(c) => c,
    };
    if c >= hi {
        proof {
            if exists|i: int| is_first(l, 44u8, i) {
                let i = choose|i: int| is_first(l, 44u8, i);
                assert(b@[lo + i] == l[i]);
            }
        }
        return Err((SampleErrorKind::MissingComma, None));
    }
    proof {
        assert forall|j: int| 0 <= j < c - lo implies l[j] != 44u8 by {
            assert(l[j] == b@.skip(lo as int)[j]);
        }
        lemma_first_index_at(l, 44u8, c - lo);
        assert(l.take(c - lo) =~= b@.subrange(lo as int, c as int));
        assert(l.skip(c - lo + 1) =~= b@.subrange(c + 1, hi as int));
    }
    let d = match number_in(b, lo, c) {
        None => return Err((SampleErrorKind::InvalidDuration, None)),
        Some(d) => d,
    };
    let n = match number_in(b, c + 1, hi) {
        None => return Err((SampleErrorKind::InvalidCount, None)),
        Some(n) => n,
    };
    if n != expected {
        return Err((SampleErrorKind::CountMismatch, Some(n)));
    }
    Ok(if d == 0 {
        1
    } else {
        d
    })
}

/// The end of the line that starts at `pos`, without its terminator, and the
/// start of the next one.
pub(crate) fn line_at(out: &[u8], pos: usize) -> (r: (usize, usize))
    requires
        pos < out@.len(),
    ensures
        pos <= r.0 <= r.1 <= out@.len(),
        pos < r.1,
        next_line(out@.skip(pos as int)) == (out@.subrange(pos as int, r.0 as int), r.1 - pos),
{
    let ghost s = out@.skip(pos as int);
    let blen = out.len();
    let nl = find_byte(out, pos, 10);
    let (end, next) = match nl {
        None => (out.len(), out.len()),
        Some(i) => if i > pos && out[i - 1] == 13 {
            (i - 1, i + 1)
        } else {
            (i, i + 1)
        },
    };
    proof {
        match nl {
            None => {
                assert(s =~= out@.subrange(pos as int, end as int));
            },
            Some(i) => {
                assert(s[i - pos] == out@[i as int]);
                assert(s.take(i - pos) =~= out@.subrange(pos as int, i as int));
                if i > pos {
                    assert(s[i - pos - 1] == out@[i - 1]);
                    assert(s.take(i - pos - 1) =~= out@.subrange(pos as int, i - 1));
                }
            },
        }
    }
    (end, next)
}

/// Reads a runner's whole result stream as sample durations in nanoseconds,
/// checking that every count equals `expected`. A duration of zero is recorded
/// as one nanosecond.
pub fn parse_samples(out: &[u8], expected: u64) -> (r: Result<Vec<u64>, SampleError>)
    ensures
        match r {
            Ok(v) => parse_stream(out@, expected) == Ok::<_, SampleErrorKind>(v@),
            Err(e) => {
                &&& parse_stream(out@, expected) == Err::<Seq<u64>, _>(e.kind)
                &&& e.expected == expected
                &&& (e.kind == SampleErrorKind::CountMismatch <==> e.got is Some)
                &&& (e.got matches Some(g) ==> g != expected)
            },
        },
{
    let mut samples: Vec<u64> = Vec::new();
    let mut pos: usize = 0;
    let blen = out.len();
    assert(out@.skip(0) =~= out@);
    while pos < out.len()
        invariant
            pos <= out@.len(),
            blen == out@.len(),
            parse_stream(out@, expected) == match parse_stream(out@.skip(pos as int), expected) {
                Err(e) => Err(e),
                Ok(rest) => Ok(samples@ + rest),
            },
        decreases out.len() - pos,
    {
        let ghost s = out@.skip(pos as int);
        let (end, next) = line_at(out, pos);
        let d = match read_line(out, pos, end, expected) {
            Ok(d) => d,
            Err((kind, got)) => {
                return Err(SampleError { kind, line: copy_bytes(out, pos, end), expected, got });
            },
        };
        let ghost before = samples@;
        samples.push(d);
        proof {
            assert(s.skip(next - pos) =~= out@.skip(next as int));
            match parse_stream(out@.skip(next as int), expected) {
                Err(e) => {},
                Ok(rest) => {
                    assert(before + (seq![d] + rest) =~= samples@ + rest);
                },
            }
        }
        pos = next;
    }
    assert(out@.skip(pos as int) =~= Seq::<u8>::empty());
    assert(samples@ + Seq::<u64>::empty() =~= samples@);
    Ok(samples)
}

/// A copy of `b[lo..hi]`.
pub(crate) fn copy_bytes(b: &[u8], lo: usize, hi: usize) -> (r: Vec<u8>)
    requires
        lo <= hi <= b@.len(),
    ensures
        r@ == b@.subrange(lo as int, hi as int),
{
    let mut v: Vec<u8> = Vec::new();
    let mut i: usize = lo;
    while i < hi
        invariant
            lo <= i <= hi <= b@.len(),
            v@ == b@.subrange(lo as int, i as int),
        decreases hi - i,
    {
        v.push(b[i]);
        i = i + 1;
        assert(v@ =~= b@.subrange(lo as int, i as int));
    }
    v
}

/// The line that a runner writes for one sample.
pub open spec fn sample_line(nanos: u64, count: u64) -> Seq<u8> {
    decimal(nanos as nat) + seq![44u8] + decimal(count as nat) + seq![10u8]
}

/// Appends the line of one sample, `<nanoseconds>,<count>\n`, to `out`.
pub fn write_sample(out: &mut Vec<u8>, nanos: u64, count: u64)
    ensures
        final(out)@ == old(out)@ + sample_line(nanos, count),
{
    let ghost start = out@;
    push_decimal(out, nanos);
    out.push(44);
    push_decimal(out, count);
    out.push(10);
    assert(out@ =~= start + sample_line(nanos, count));
}

/// Every sample that a result stream yields is at least one nanosecond: a
/// reported zero is rounded up.
pub proof fn lemma_samples_positive(s: Seq<u8>, expected: u64)
    ensures
        parse_stream(s, expected) matches Ok(v) ==> forall|i: int| 0 <= i < v.len() ==> #[trigger] v[i] >= 1,
    decreases s.len(),
{
    if s.len() > 0 {
        let (l, n) = next_line(s);
        if 0 < n <= s.len() {
            lemma_samples_positive(s.skip(n), expected);
            if let Ok(d) = parse_line(l, expected) {
                if let Ok(rest) = parse_stream(s.skip(n), expected) {
                    let v = seq![d] + rest;
                    assert forall|i: int| 0 <= i < v.len() implies #[trigger] v[i] >= 1 by {
                        if i > 0 {
                            assert(v[i] == rest[i - 1]);
                        }
                    }
                }
            }
        }
    }
}

/// The line of one sample, at the start of a stream, reads back as that line
/// and its duration and count.
proof fn lemma_sample_line_reads(d: u64, c: u64, rest: Seq<u8>)
    ensures
        ({
            let s = sample_line(d, c) + rest;
            let l = decimal(d as nat) + seq![44u8] + decimal(c as nat);
            &&& next_line(s) == (l, sample_line(d, c).len() as int)
            &&& s.skip(sample_line(d, c).len() as int) == rest
            &&& first_index(l, 44u8) == Some(decimal(d as nat).len() as int)
            &&& parse_number(l.take(decimal(d as nat).len() as int)) == Some(d)
            &&& parse_number(l.skip(decimal(d as nat).len() as int + 1)) == Some(c)
        }),
{
    let dd = decimal(d as nat);
    let dc = decimal(c as nat);
    lemma_decimal_parses(d as nat);
    lemma_decimal_parses(c as nat);
    let s = sample_line(d, c) + rest;
    let l = dd + seq![44u8] + dc;
    let nl = dd.len() + 1 + dc.len();
    assert forall|j: int| 0 <= j < nl implies s[j] != 10u8 by {
        if j < dd.len() {
            assert(s[j] == dd[j]);
            assert(is_digit(dd[j]));
        } else if j > dd.len() {
            assert(s[j] == dc[j - dd.len() - 1]);
            assert(is_digit(dc[j - dd.len() - 1]));
        }
    }
    assert(s[nl as int] == 10u8);
    lemma_first_index_at(s, 10u8, nl as int);
    assert(s[nl - 1] == dc[dc.len() - 1]);
    assert(is_digit(dc[dc.len() - 1]));
    assert(s.take(nl as int) =~= l);
    assert(s.skip(sample_line(d, c).len() as int) =~= rest);
    assert forall|j: int| 0 <= j < dd.len() implies l[j] != 44u8 by {
        assert(l[j] == dd[j]);
        assert(is_digit(dd[j]));
    }
    lemma_first_index_at(l, 44u8, dd.len() as int);
    assert(l.take(dd.len() as int) =~= dd);
    assert(l.skip(dd.len() as int + 1) =~= dc);
}

/// A line whose count differs from the expected count fails the whole stream,
/// whatever follows it.
pub proof fn lemma_count_mismatch_rejects(d: u64, c: u64, expected: u64, rest: Seq<u8>)
    requires
        c != expected,
    ensures
        parse_stream(sample_line(d, c) + rest, expected) == Err::<Seq<u64>, SampleErrorKind>(
            SampleErrorKind::CountMismatch,
        ),
{
    lemma_sample_line_reads(d, c, rest);
}

/// A well-formed line with the expected count yields its duration, zero
/// rounded up to one nanosecond, before the samples of the rest.
pub proof fn lemma_sample_line_accepted(d: u64, c: u64, rest: Seq<u8>)
    ensures
        parse_stream(sample_line(d, c) + rest, c) == match parse_stream(rest, c) {
            Ok(v) => Ok::<Seq<u64>, SampleErrorKind>(seq![effective_nanos(d)] + v),
            Err(e) => Err(e),
        },
        effective_nanos(d) >= 1,
{
    lemma_sample_line_reads(d, c, rest);
}

/// The lines of samples with durations `ds`, all with count `c`.
pub open spec fn sample_lines(ds: Seq<u64>, c: u64) -> Seq<u8>
    decreases ds.len(),
{
    if ds.len() == 0 {
        Seq::empty()
    } else {
        sample_line(ds[0], c) + sample_lines(ds.skip(1), c)
    }
}

/// A stream of one well-formed line per sample, each with the expected count,
/// reads back as one sample per line, zeros rounded up to one nanosecond.
pub proof fn lemma_sample_lines_read_back(ds: Seq<u64>, c: u64)
    ensures
        parse_stream(sample_lines(ds, c), c) == Ok::<Seq<u64>, SampleErrorKind>(
            ds.map_values(|d: u64| effective_nanos(d)),
        ),
    decreases ds.len(),
{
    if ds.len() == 0 {
        assert(ds.map_values(|d: u64| effective_nanos(d)) =~= Seq::<u64>::empty());
    } else {
        lemma_sample_lines_read_back(ds.skip(1), c);
        lemma_sample_line_accepted(ds[0], c, sample_lines(ds.skip(1), c));
        assert(seq![effective_nanos(ds[0])] + ds.skip(1).map_values(|d: u64| effective_nanos(d))
            =~= ds.map_values(|d: u64| effective_nanos(d)));
    }
}

} // verus!
