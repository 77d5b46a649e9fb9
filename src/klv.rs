//! The key-length-value wire format that carries a benchmark request from the
//! harness into a runner process.
//!
//! A stream is a sequence of records `key:length:value\n`, where `length` is the
//! decimal byte length of `value` and `value` is that many raw bytes.
use vstd::prelude::*;
use vstd::seq_lib::lemma_concat_associative;
use vstd::utf8::*;

use crate::order::lemma_ascii_valid;
use crate::decimal::{decimal, digits_value, is_decimal, lemma_decimal_parses, parse_u64, push_decimal};

verus! {

broadcast use vstd::utf8::group_utf8_lib;

/// The byte `:`.
pub open spec fn colon() -> u8 {
    58u8
}

/// The byte `\n`.
pub open spec fn newline() -> u8 {
    10u8
}

/// `i` is the position of the first `:` in `s`.
pub open spec fn is_first_colon(s: Seq<u8>, i: int) -> bool {
    &&& 0 <= i < s.len()
    &&& s[i] == colon()
    &&& forall|j: int| 0 <= j < i ==> s[j] != colon()
}

/// The position of the first `:` in `s`, if there is one.
pub open spec fn first_colon(s: Seq<u8>) -> Option<int> {
    if exists|i: int| is_first_colon(s, i) {
        Some(choose|i: int| is_first_colon(s, i))
    } else {
        None
    }
}

/// `s` holds no `:`.
pub open spec fn colon_free(s: Seq<u8>) -> bool {
    forall|i: int| 0 <= i < s.len() ==> s[i] != colon()
}

/// The ways in which a KLV stream can be malformed.
#[derive(Clone, Copy, Debug, PartialEq, Eq, Structural)]
pub enum KlvErrorKind {
    /// No `:` ends the key.
    MissingFirstColon,
    /// No `:` ends the length.
    MissingSecondColon,
    /// The length is not a decimal number that fits in 64 bits.
    InvalidLength,
    /// The length runs past the end of the input.
    LengthExceedsInput,
    /// The value is not followed by `\n`.
    MissingTerminator,
    /// A known key carries a value of the wrong shape.
    InvalidValue,
    /// The key is not valid UTF-8.
    KeyNotUtf8,
}

/// A decoding failure, with the key of the offending record when it is known.
#[derive(Clone, Debug)]
pub struct KlvError {
    pub kind: KlvErrorKind,
    pub key: Option<Vec<u8>>,
}

/// A decoding failure as a value: its kind, and the key of the offending
/// record once the `:` after it was found.
pub type DecodeError = (KlvErrorKind, Option<Seq<u8>>);

/// The key of an error, as bytes.
pub open spec fn key_view(k: Option<Vec<u8>>) -> Option<Seq<u8>> {
    match k {
        Some(v) => Some(v@),
        None => None,
    }
}

/// Reads one record at the start of `s`: its key, its value and the number of
/// bytes that it spans.
#[verifier::opaque]
pub open spec fn parse_record(s: Seq<u8>) -> Result<(Seq<u8>, Seq<u8>, int), DecodeError> {
    match first_colon(s) {
        None => Err((KlvErrorKind::MissingFirstColon, None)),
        Some(c1) => {
            let key = s.take(c1);
            let rest = s.skip(c1 + 1);
            if !valid_utf8(key) {
                Err((KlvErrorKind::KeyNotUtf8, Some(key)))
            } else {
                match first_colon(rest) {
                    None => Err((KlvErrorKind::MissingSecondColon, Some(key))),
                    Some(c2) => {
                        let digits = rest.take(c2);
                        let body = rest.skip(c2 + 1);
                        let len = digits_value(digits) as int;
                        if !is_decimal(digits) || len > u64::MAX {
                            Err((KlvErrorKind::InvalidLength, Some(key)))
                        } else if len > body.len() {
                            Err((KlvErrorKind::LengthExceedsInput, Some(key)))
                        } else if len == body.len() || body[len] != newline() {
                            Err((KlvErrorKind::MissingTerminator, Some(key)))
                        } else {
                            Ok((key, body.take(len), c1 + c2 + len + 3))
                        }
                    },
                }
            }
        },
    }
}

/// The bytes of one record.
pub open spec fn record(k: Seq<u8>, v: Seq<u8>) -> Seq<u8> {
    k + seq![colon()] + decimal(v.len()) + seq![colon()] + v + seq![newline()]
}

/// The first `:` of `s` is at `i`, when `s[..i]` holds none and `s[i]` is one.
proof fn lemma_first_colon_at(s: Seq<u8>, i: int)
    requires
        0 <= i < s.len(),
        s[i] == colon(),
        forall|j: int| 0 <= j < i ==> s[j] != colon(),
    ensures
        first_colon(s) == Some(i),
{
    assert(is_first_colon(s, i));
    let c = choose|c: int| is_first_colon(s, c);
    assert(is_first_colon(s, c));
    if c < i {
        assert(s[c] != colon());
    }
    if c > i {
        assert(s[i] != colon());
    }
}

/// A record whose key holds no `:` reads back as that key and value, followed
/// by whatever comes after it.
pub proof fn lemma_parse_record(k: Seq<u8>, v: Seq<u8>, rest: Seq<u8>)
    requires
        colon_free(k),
        valid_utf8(k),
        v.len() <= u64::MAX,
    ensures
        parse_record(record(k, v) + rest) == Ok::<_, DecodeError>((k, v, record(k, v).len() as int)),
        (record(k, v) + rest).skip(record(k, v).len() as int) == rest,
{
    reveal(parse_record);
    let d = decimal(v.len());
    lemma_decimal_parses(v.len());
    let s = record(k, v) + rest;
    let c1 = k.len() as int;
    assert(s[c1] == colon());
    assert forall|j: int| 0 <= j < c1 implies s[j] != colon() by {
        assert(s[j] == k[j]);
    }
    lemma_first_colon_at(s, c1);
    let r1 = s.skip(c1 + 1);
    assert(r1 =~= d + seq![colon()] + v + seq![newline()] + rest);
    let c2 = d.len() as int;
    assert(r1[c2] == colon());
    assert forall|j: int| 0 <= j < c2 implies r1[j] != colon() by {
        assert(r1[j] == d[j]);
        assert(crate::decimal::is_digit(d[j]));
    }
    lemma_first_colon_at(r1, c2);
    assert(r1.take(c2) =~= d);
    let body = r1.skip(c2 + 1);
    assert(body =~= v + seq![newline()] + rest);
    assert(body[v.len() as int] == newline());
    assert(body.take(v.len() as int) =~= v);
    assert(s.take(c1) =~= k);
    assert(s.skip(record(k, v).len() as int) =~= rest);
}

/// A stream whose first record is malformed is rejected, with the kind of the
/// first flaw and, once the `:` after the key was found, that key: no `:`
/// after the key, a key that is not UTF-8, no `:` after the length, a length
/// that is not a decimal, a length past the end of the input, or no `\n` after
/// the value.
pub proof fn lemma_decoder_rejects(k: Seq<u8>, d: Seq<u8>, rest: Seq<u8>)
    requires
        colon_free(k),
    ensures
        k.len() > 0 ==> decode(k) == Err::<BenchmarkModel, DecodeError>(
            (KlvErrorKind::MissingFirstColon, None),
        ),
        !valid_utf8(k) ==> decode(k + seq![colon()] + d) == Err::<BenchmarkModel, DecodeError>(
            (KlvErrorKind::KeyNotUtf8, Some(k)),
        ),
        valid_utf8(k) && colon_free(d) ==> decode(k + seq![colon()] + d) == Err::<
            BenchmarkModel,
            DecodeError,
        >((KlvErrorKind::MissingSecondColon, Some(k))),
        valid_utf8(k) && colon_free(d) && !is_decimal(d) ==> decode(
            k + seq![colon()] + d + seq![colon()] + rest,
        ) == Err::<BenchmarkModel, DecodeError>((KlvErrorKind::InvalidLength, Some(k))),
        valid_utf8(k) && colon_free(d) && is_decimal(d) && rest.len() < digits_value(d)
            <= u64::MAX ==> decode(k + seq![colon()] + d + seq![colon()] + rest) == Err::<
            BenchmarkModel,
            DecodeError,
        >((KlvErrorKind::LengthExceedsInput, Some(k))),
        valid_utf8(k) && colon_free(d) && is_decimal(d) && digits_value(d) <= rest.len()
            && digits_value(d) <= u64::MAX && (digits_value(d) == rest.len() || rest[digits_value(
            d,
        ) as int] != newline()) ==> decode(k + seq![colon()] + d + seq![colon()] + rest) == Err::<
            BenchmarkModel,
            DecodeError,
        >((KlvErrorKind::MissingTerminator, Some(k))),
{
    reveal(parse_record);
    if k.len() > 0 {
        if exists|i: int| is_first_colon(k, i) {
            let i = choose|i: int| is_first_colon(k, i);
            assert(k[i] != colon());
        }
    }
    let s1 = k + seq![colon()] + d;
    assert forall|j: int| 0 <= j < k.len() implies s1[j] != colon() by {
        assert(s1[j] == k[j]);
    }
    lemma_first_colon_at(s1, k.len() as int);
    let r1 = s1.skip(k.len() as int + 1);
    assert(r1 =~= d);
    assert(s1.take(k.len() as int) =~= k);
    if colon_free(d) {
        if exists|i: int| is_first_colon(d, i) {
            let i = choose|i: int| is_first_colon(d, i);
            assert(d[i] != colon());
        }
    }
    let s2 = k + seq![colon()] + d + seq![colon()] + rest;
    assert forall|j: int| 0 <= j < k.len() implies s2[j] != colon() by {
        assert(s2[j] == k[j]);
    }
    lemma_first_colon_at(s2, k.len() as int);
    let r2 = s2.skip(k.len() as int + 1);
    assert(r2 =~= d + seq![colon()] + rest);
    assert(s2.take(k.len() as int) =~= k);
    if colon_free(d) {
        assert forall|j: int| 0 <= j < d.len() implies r2[j] != colon() by {
            assert(r2[j] == d[j]);
        }
        lemma_first_colon_at(r2, d.len() as int);
        assert(r2.take(d.len() as int) =~= d);
        assert(r2.skip(d.len() as int + 1) =~= rest);
    }
}

/// The fields of a benchmark request, each named by its own key.
#[derive(Clone, Copy, Debug, PartialEq, Eq, Structural)]
pub enum Field {
    Name,
    Model,
    Pattern,
    CaseInsensitive,
    Unicode,
    Haystack,
    MaxIters,
    MaxWarmupIters,
    MaxTime,
    MaxWarmupTime,
}

/// The key bytes of each field.
pub open spec fn field_key(f: Field) -> Seq<u8> {
    match f {
        Field::Name => seq![110u8, 97, 109, 101],
        Field::Model => seq![109u8, 111, 100, 101, 108],
        Field::Pattern => seq![112u8, 97, 116, 116, 101, 114, 110],
        Field::CaseInsensitive => seq![
            99u8, 97, 115, 101, 45, 105, 110, 115, 101, 110, 115, 105, 116, 105, 118, 101,
        ],
        Field::Unicode => seq![117u8, 110, 105, 99, 111, 100, 101],
        Field::Haystack => seq![104u8, 97, 121, 115, 116, 97, 99, 107],
        Field::MaxIters => seq![109u8, 97, 120, 45, 105, 116, 101, 114, 115],
        Field::MaxWarmupIters => seq![
            109u8, 97, 120, 45, 119, 97, 114, 109, 117, 112, 45, 105, 116, 101, 114, 115,
        ],
        Field::MaxTime => seq![109u8, 97, 120, 45, 116, 105, 109, 101],
        Field::MaxWarmupTime => seq![
            109u8, 97, 120, 45, 119, 97, 114, 109, 117, 112, 45, 116, 105, 109, 101,
        ],
    }
}

/// The field that a key names; other keys name none and are skipped.
pub open spec fn field_of(k: Seq<u8>) -> Option<Field> {
    if k == field_key(Field::Name) {
        Some(Field::Name)
    } else if k == field_key(Field::Model) {
        Some(Field::Model)
    } else if k == field_key(Field::Pattern) {
        Some(Field::Pattern)
    } else if k == field_key(Field::CaseInsensitive) {
        Some(Field::CaseInsensitive)
    } else if k == field_key(Field::Unicode) {
        Some(Field::Unicode)
    } else if k == field_key(Field::Haystack) {
        Some(Field::Haystack)
    } else if k == field_key(Field::MaxIters) {
        Some(Field::MaxIters)
    } else if k == field_key(Field::MaxWarmupIters) {
        Some(Field::MaxWarmupIters)
    } else if k == field_key(Field::MaxTime) {
        Some(Field::MaxTime)
    } else if k == field_key(Field::MaxWarmupTime) {
        Some(Field::MaxWarmupTime)
    } else {
        None
    }
}

/// The bytes `true` and `false`.
pub open spec fn bool_bytes(b: bool) -> Seq<u8> {
    if b {
        seq![116u8, 114, 117, 101]
    } else {
        seq![102u8, 97, 108, 115, 101]
    }
}

/// A value read as a boolean.
pub open spec fn parse_bool(v: Seq<u8>) -> Option<bool> {
    if v == bool_bytes(true) {
        Some(true)
    } else if v == bool_bytes(false) {
        Some(false)
    } else {
        None
    }
}

/// A value read as a 64-bit unsigned decimal.
pub open spec fn parse_number(v: Seq<u8>) -> Option<u64> {
    if is_decimal(v) && digits_value(v) <= u64::MAX {
        Some(digits_value(v) as u64)
    } else {
        None
    }
}

/// What a benchmark request holds, as mathematical values.
pub struct BenchmarkModel {
    pub name: Seq<char>,
    pub model: Seq<char>,
    pub patterns: Seq<Seq<char>>,
    pub case_insensitive: bool,
    pub unicode: bool,
    pub haystack: Seq<u8>,
    pub max_iters: u64,
    pub max_warmup_iters: u64,
    pub max_time: u64,
    pub max_warmup_time: u64,
}

/// The request that an empty stream describes.
pub open spec fn empty_model() -> BenchmarkModel {
    BenchmarkModel {
        name: Seq::empty(),
        model: Seq::empty(),
        patterns: Seq::empty(),
        case_insensitive: false,
        unicode: false,
        haystack: Seq::empty(),
        max_iters: 0,
        max_warmup_iters: 0,
        max_time: 0,
        max_warmup_time: 0,
    }
}

/// The request after one record for field `f` with value `v`.
pub open spec fn apply_field(m: BenchmarkModel, f: Field, v: Seq<u8>) -> Option<BenchmarkModel> {
    match f {
        Field::Name => if valid_utf8(v) {
            Some(BenchmarkModel { name: decode_utf8(v), ..m })
        } else {
            None
        },
        Field::Model => if valid_utf8(v) {
            Some(BenchmarkModel { model: decode_utf8(v), ..m })
        } else {
            None
        },
        Field::Pattern => if valid_utf8(v) {
            Some(BenchmarkModel { patterns: m.patterns.push(decode_utf8(v)), ..m })
        } else {
            None
        },
        Field::CaseInsensitive => match parse_bool(v) {
            Some(b) => Some(BenchmarkModel { case_insensitive: b, ..m }),
            None => None,
        },
        Field::Unicode => match parse_bool(v) {
            Some(b) => Some(BenchmarkModel { unicode: b, ..m }),
            None => None,
        },
        Field::Haystack => Some(BenchmarkModel { haystack: v, ..m }),
        Field::MaxIters => match parse_number(v) {
            Some(n) => Some(BenchmarkModel { max_iters: n, ..m }),
            None => None,
        },
        Field::MaxWarmupIters => match parse_number(v) {
            Some(n) => Some(BenchmarkModel { max_warmup_iters: n, ..m }),
            None => None,
        },
        Field::MaxTime => match parse_number(v) {
            Some(n) => Some(BenchmarkModel { max_time: n, ..m }),
            None => None,
        },
        Field::MaxWarmupTime => match parse_number(v) {
            Some(n) => Some(BenchmarkModel { max_warmup_time: n, ..m }),
            None => None,
        },
    }
}

/// The request after one record with key `k` and value `v`: an unknown key
/// leaves it as it is.
pub open spec fn apply_record(m: BenchmarkModel, k: Seq<u8>, v: Seq<u8>) -> Option<BenchmarkModel> {
    match field_of(k) {
        None => Some(m),
        Some(f) => apply_field(m, f, v),
    }
}

/// Decodes the records of `s` on top of `m`.
pub open spec fn decode_from(s: Seq<u8>, m: BenchmarkModel) -> Result<BenchmarkModel, DecodeError>
    decreases s.len(),
{
    if s.len() == 0 {
        Ok(m)
    } else {
        match parse_record(s) {
            Err(e) => Err(e),
            Ok((k, v, n)) => match apply_record(m, k, v) {
                None => Err((KlvErrorKind::InvalidValue, Some(k))),
                Some(m2) => if 0 < n <= s.len() {
                    decode_from(s.skip(n), m2)
                } else {
                    Err((KlvErrorKind::InvalidValue, Some(k)))
                },
            },
        }
    }
}

/// Decodes a whole stream as one benchmark request.
pub open spec fn decode(s: Seq<u8>) -> Result<BenchmarkModel, DecodeError> {
    decode_from(s, empty_model())
}

/// The records of the patterns, in order.
pub open spec fn patterns_encoding(ps: Seq<Seq<char>>) -> Seq<u8>
    decreases ps.len(),
{
    if ps.len() == 0 {
        Seq::empty()
    } else {
        record(field_key(Field::Pattern), encode_utf8(ps[0])) + patterns_encoding(ps.skip(1))
    }
}

/// The stream that encodes a request: the scalar fields first, then one record
/// per pattern, then the haystack.
pub open spec fn encoding(m: BenchmarkModel) -> Seq<u8> {
    record(field_key(Field::Name), encode_utf8(m.name)) + (record(
        field_key(Field::Model),
        encode_utf8(m.model),
    ) + (record(field_key(Field::CaseInsensitive), bool_bytes(m.case_insensitive)) + (record(
        field_key(Field::Unicode),
        bool_bytes(m.unicode),
    ) + (record(field_key(Field::MaxIters), decimal(m.max_iters as nat)) + (record(
        field_key(Field::MaxWarmupIters),
        decimal(m.max_warmup_iters as nat),
    ) + (record(field_key(Field::MaxTime), decimal(m.max_time as nat)) + (record(
        field_key(Field::MaxWarmupTime),
        decimal(m.max_warmup_time as nat),
    ) + (patterns_encoding(m.patterns) + record(field_key(Field::Haystack), m.haystack)))))))))
}

/// Every value of the request has a length that a record can state.
pub open spec fn encodable(m: BenchmarkModel) -> bool {
    &&& encode_utf8(m.name).len() <= u64::MAX
    &&& encode_utf8(m.model).len() <= u64::MAX
    &&& forall|i: int| 0 <= i < m.patterns.len() ==> encode_utf8(#[trigger] m.patterns[i]).len() <= u64::MAX
    &&& m.haystack.len() <= u64::MAX
}

/// A record that a known field's key opens decodes to what `apply_record` gives,
/// after which decoding goes on with the rest.
proof fn lemma_decode_record(k: Seq<u8>, v: Seq<u8>, rest: Seq<u8>, m: BenchmarkModel)
    requires
        colon_free(k),
        valid_utf8(k),
        v.len() <= u64::MAX,
    ensures
        decode_from(record(k, v) + rest, m) == (match apply_record(m, k, v) {
            None => Err((KlvErrorKind::InvalidValue, Some(k))),
            Some(m2) => decode_from(rest, m2),
        }),
{
    lemma_parse_record(k, v, rest);
    let s = record(k, v) + rest;
    assert(s.len() >= record(k, v).len() > 0);
}

/// Each field's key holds no `:` and names that field again.
proof fn lemma_field_key(f: Field)
    ensures
        colon_free(field_key(f)),
        valid_utf8(field_key(f)),
        field_of(field_key(f)) == Some(f),
{
    let k = field_key(f);
    assert(colon_free(k));
    assert forall|i: int| 0 <= i < k.len() implies #[trigger] k[i] < 128 by {}
    lemma_ascii_valid(k);
    assert(field_key(Field::Name).len() == 4);
    assert(field_key(Field::Model).len() == 5);
    assert(field_key(Field::Pattern).len() == 7);
    assert(field_key(Field::Unicode).len() == 7);
    assert(field_key(Field::Pattern)[0] != field_key(Field::Unicode)[0]);
    assert(field_key(Field::Haystack).len() == 8);
    assert(field_key(Field::MaxTime).len() == 8);
    assert(field_key(Field::Haystack)[0] != field_key(Field::MaxTime)[0]);
    assert(field_key(Field::MaxIters).len() == 9);
    assert(field_key(Field::CaseInsensitive).len() == 16);
    assert(field_key(Field::MaxWarmupIters).len() == 16);
    assert(field_key(Field::CaseInsensitive)[0] != field_key(Field::MaxWarmupIters)[0]);
    assert(field_key(Field::MaxWarmupTime).len() == 15);
}

/// One record of a known field moves decoding on to the rest, with the field set.
proof fn lemma_decode_field(f: Field, v: Seq<u8>, rest: Seq<u8>, m: BenchmarkModel, m2: BenchmarkModel)
    requires
        v.len() <= u64::MAX,
        apply_field(m, f, v) == Some(m2),
    ensures
        decode_from(record(field_key(f), v) + rest, m) == decode_from(rest, m2),
{
    lemma_field_key(f);
    lemma_decode_record(field_key(f), v, rest, m);
}

/// A boolean's bytes read back as that boolean.
proof fn lemma_bool_bytes(b: bool)
    ensures
        parse_bool(bool_bytes(b)) == Some(b),
{
    assert(bool_bytes(true).len() != bool_bytes(false).len());
}

/// A number's rendering reads back as that number.
proof fn lemma_number(n: u64)
    ensures
        parse_number(decimal(n as nat)) == Some(n),
        decimal(n as nat).len() <= u64::MAX,
{
    lemma_decimal_parses(n as nat);
    lemma_decimal_len(n as nat);
}

/// A rendering of a positive number is never longer than that number.
proof fn lemma_decimal_len(n: nat)
    ensures
        n >= 1 ==> decimal(n).len() <= n,
        decimal(n).len() <= 1 || n >= 10,
    decreases n,
{
    if n >= 10 {
        lemma_decimal_len(n / 10);
    }
}

/// A string's UTF-8 bytes decode to it again.
proof fn lemma_text(t: Seq<char>)
    ensures
        valid_utf8(encode_utf8(t)),
        decode_utf8(encode_utf8(t)) == t,
{
}

/// The pattern records decode to the patterns, appended in order.
proof fn lemma_decode_patterns(ps: Seq<Seq<char>>, rest: Seq<u8>, m: BenchmarkModel)
    requires
        forall|i: int| 0 <= i < ps.len() ==> encode_utf8(#[trigger] ps[i]).len() <= u64::MAX,
    ensures
        decode_from(patterns_encoding(ps) + rest, m) == decode_from(
            rest,
            BenchmarkModel { patterns: m.patterns + ps, ..m },
        ),
    decreases ps.len(),
{
    if ps.len() == 0 {
        assert(patterns_encoding(ps) + rest =~= rest);
        assert(m.patterns + ps =~= m.patterns);
    } else {
        let pk = field_key(Field::Pattern);
        let tail = ps.skip(1);
        assert forall|i: int| 0 <= i < tail.len() implies encode_utf8(#[trigger] tail[i]).len()
            <= u64::MAX by {
            assert(tail[i] == ps[i + 1]);
        }
        assert(encode_utf8(ps[0]).len() <= u64::MAX);
        lemma_field_key(Field::Pattern);
        lemma_text(ps[0]);
        assert(patterns_encoding(ps) + rest =~= record(pk, encode_utf8(ps[0])) + (
        patterns_encoding(tail) + rest));
        lemma_decode_record(pk, encode_utf8(ps[0]), patterns_encoding(tail) + rest, m);
        let m2 = BenchmarkModel { patterns: m.patterns.push(ps[0]), ..m };
        lemma_decode_patterns(tail, rest, m2);
        assert(m.patterns.push(ps[0]) + tail =~= m.patterns + ps);
    }
}

/// Decoding the encoding of a request gives that request back.
pub proof fn lemma_round_trip(m: BenchmarkModel)
    requires
        encodable(m),
    ensures
        decode(encoding(m)) == Ok::<_, DecodeError>(m),
{
    lemma_text(m.name);
    lemma_text(m.model);
    lemma_bool_bytes(m.case_insensitive);
    lemma_bool_bytes(m.unicode);
    lemma_number(m.max_iters);
    lemma_number(m.max_warmup_iters);
    lemma_number(m.max_time);
    lemma_number(m.max_warmup_time);
    assert(bool_bytes(m.case_insensitive).len() <= 5);
    assert(bool_bytes(m.unicode).len() <= 5);
    let m0 = empty_model();
    let m1 = BenchmarkModel { name: m.name, ..m0 };
    let m2 = BenchmarkModel { model: m.model, ..m1 };
    let m3 = BenchmarkModel { case_insensitive: m.case_insensitive, ..m2 };
    let m4 = BenchmarkModel { unicode: m.unicode, ..m3 };
    let m5 = BenchmarkModel { max_iters: m.max_iters, ..m4 };
    let m6 = BenchmarkModel { max_warmup_iters: m.max_warmup_iters, ..m5 };
    let m7 = BenchmarkModel { max_time: m.max_time, ..m6 };
    let m8 = BenchmarkModel { max_warmup_time: m.max_warmup_time, ..m7 };
    let m9 = BenchmarkModel { patterns: m8.patterns + m.patterns, ..m8 };
    let m10 = BenchmarkModel { haystack: m.haystack, ..m9 };
    let hay = record(field_key(Field::Haystack), m.haystack);
    let t8 = patterns_encoding(m.patterns) + hay;
    let t7 = record(field_key(Field::MaxWarmupTime), decimal(m.max_warmup_time as nat)) + t8;
    let t6 = record(field_key(Field::MaxTime), decimal(m.max_time as nat)) + t7;
    let t5 = record(field_key(Field::MaxWarmupIters), decimal(m.max_warmup_iters as nat)) + t6;
    let t4 = record(field_key(Field::MaxIters), decimal(m.max_iters as nat)) + t5;
    let t3 = record(field_key(Field::Unicode), bool_bytes(m.unicode)) + t4;
    let t2 = record(field_key(Field::CaseInsensitive), bool_bytes(m.case_insensitive)) + t3;
    let t1 = record(field_key(Field::Model), encode_utf8(m.model)) + t2;
    assert(encoding(m) == record(field_key(Field::Name), encode_utf8(m.name)) + t1);
    lemma_decode_field(Field::Name, encode_utf8(m.name), t1, m0, m1);
    lemma_decode_field(Field::Model, encode_utf8(m.model), t2, m1, m2);
    lemma_decode_field(Field::CaseInsensitive, bool_bytes(m.case_insensitive), t3, m2, m3);
    lemma_decode_field(Field::Unicode, bool_bytes(m.unicode), t4, m3, m4);
    lemma_decode_field(Field::MaxIters, decimal(m.max_iters as nat), t5, m4, m5);
    lemma_decode_field(Field::MaxWarmupIters, decimal(m.max_warmup_iters as nat), t6, m5, m6);
    lemma_decode_field(Field::MaxTime, decimal(m.max_time as nat), t7, m6, m7);
    lemma_decode_field(Field::MaxWarmupTime, decimal(m.max_warmup_time as nat), t8, m7, m8);
    lemma_decode_patterns(m.patterns, hay, m8);
    assert(hay + Seq::<u8>::empty() =~= hay);
    lemma_decode_field(Field::Haystack, m.haystack, Seq::empty(), m9, m10);
    assert(m8.patterns + m.patterns =~= m.patterns);
    assert(m10 == m);
}

/// The position of the first `:` at or after `start`.
fn find_colon(b: &[u8], start: usize) -> (r: Option<usize>)
    requires
        start <= b@.len(),
    ensures
        match r {
            None => first_colon(b@.skip(start as int)) is None,
            Some(i) => start <= i < b@.len() && first_colon(b@.skip(start as int)) == Some(
                i - start,
            ),
        },
{
    let ghost s = b@.skip(start as int);
    let mut i: usize = start;
    while i < b.len()
        invariant
            start <= i <= b@.len(),
            s == b@.skip(start as int),
            forall|j: int| start <= j < i ==> b@[j] != colon(),
        decreases b.len() - i,
    {
        if b[i] == 58 {
            proof {
                assert forall|j: int| 0 <= j < i - start implies s[j] != colon() by {
                    assert(s[j] == b@[start + j]);
                }
                lemma_first_colon_at(s, i - start);
            }
            return Some(i);
        }
        i = i + 1;
    }
    proof {
        if exists|c: int| is_first_colon(s, c) {
            let c = choose|c: int| is_first_colon(s, c);
            assert(s[c] == b@[start + c]);
        }
    }
    None
}

/// A copy of `b[lo..hi]`.
fn copy_range(b: &[u8], lo: usize, hi: usize) -> (r: Vec<u8>)
    requires
        lo <= hi <= b@.len(),
    ensures
        r@ == b@.subrange(lo as int, hi as int),
{
    let mut v: Vec<u8> = Vec::new();
    let mut i: usize = lo;
    while i < hi
        invariant
            lo <= i <= hi <= b@.len(),
            v@ == b@.subrange(lo as int, i as int),
        decreases hi - i,
    {
        v.push(b[i]);
        i = i + 1;
        assert(v@ =~= b@.subrange(lo as int, i as int));
    }
    v
}

/// Reads the record that starts at `pos`: its key, its value, and the position
/// just past it.
fn read_record(b: &[u8], pos: usize) -> (r: Result<(Vec<u8>, Vec<u8>, usize), KlvError>)
    requires
        pos < b@.len(),
    ensures
        match r {
            Ok((k, v, next)) => pos < next <= b@.len() && parse_record(b@.skip(pos as int)) == Ok::<
                _,
                DecodeError,
            >((k@, v@, next - pos)),
            Err(e) => parse_record(b@.skip(pos as int)) == Err::<(Seq<u8>, Seq<u8>, int), _>(
                (e.kind, key_view(e.key)),
            ),
        },
{
    reveal(parse_record);
    let blen = b.len();
    let ghost s = b@.skip(pos as int);
    let c1 = match find_colon(b, pos) {
        None => {
            return Err(KlvError { kind: KlvErrorKind::MissingFirstColon, key: None });
        },
        Some(c) => c,
    };
    let key = copy_range(b, pos, c1);
    assert(s.take(c1 - pos) =~= key@);
    if utf8_text(key.as_slice()).is_none() {
        return Err(KlvError { kind: KlvErrorKind::KeyNotUtf8, key: Some(key) });
    }
    let ghost rest = s.skip(c1 - pos + 1);
    assert(rest =~= b@.skip(c1 + 1));
    let c2 = match find_colon(b, c1 + 1) {
        None => {
            return Err(KlvError { kind: KlvErrorKind::MissingSecondColon, key: Some(key) });
        },
        Some(c) => c,
    };
    assert(rest.take(c2 - c1 - 1) =~= b@.subrange(c1 + 1, c2 as int));
    let len = match parse_u64(b, c1 + 1, c2) {
        None => {
            return Err(KlvError { kind: KlvErrorKind::InvalidLength, key: Some(key) });
        },
        Some(n) => n,
    };
    let ghost body = rest.skip(c2 - c1);
    assert(body =~= b@.skip(c2 + 1));
    let remaining = b.len() - (c2 + 1);
    if len > remaining as u64 {
        return Err(KlvError { kind: KlvErrorKind::LengthExceedsInput, key: Some(key) });
    }
    let vend = c2 + 1 + len as usize;
    if vend == b.len() || b[vend] != 10 {
        return Err(KlvError { kind: KlvErrorKind::MissingTerminator, key: Some(key) });
    }
    let value = copy_range(b, c2 + 1, vend);
    assert(body.take(len as int) =~= value@);
    Ok((key, value, vend + 1))
}

/// The bytes of a field's key.
fn key_bytes(f: Field) -> (r: Vec<u8>)
    ensures
        r@ == field_key(f),
{
    let v = match f {
        Field::Name => vec![110u8, 97, 109, 101],
        Field::Model => vec![109u8, 111, 100, 101, 108],
        Field::Pattern => vec![112u8, 97, 116, 116, 101, 114, 110],
        Field::CaseInsensitive => vec![
            99u8, 97, 115, 101, 45, 105, 110, 115, 101, 110, 115, 105, 116, 105, 118, 101,
        ],
        Field::Unicode => vec![117u8, 110, 105, 99, 111, 100, 101],
        Field::Haystack => vec![104u8, 97, 121, 115, 116, 97, 99, 107],
        Field::MaxIters => vec![109u8, 97, 120, 45, 105, 116, 101, 114, 115],
        Field::MaxWarmupIters => vec![
            109u8, 97, 120, 45, 119, 97, 114, 109, 117, 112, 45, 105, 116, 101, 114, 115,
        ],
        Field::MaxTime => vec![109u8, 97, 120, 45, 116, 105, 109, 101],
        Field::MaxWarmupTime => vec![
            109u8, 97, 120, 45, 119, 97, 114, 109, 117, 112, 45, 116, 105, 109, 101,
        ],
    };
    assert(v@ =~= field_key(f));
    v
}

/// The bytes `true` or `false`.
fn bool_vec(b: bool) -> (r: Vec<u8>)
    ensures
        r@ == bool_bytes(b),
{
    let v = if b {
        vec![116u8, 114, 117, 101]
    } else {
        vec![102u8, 97, 108, 115, 101]
    };
    assert(v@ =~= bool_bytes(b));
    v
}

/// Byte-wise equality.
fn same_bytes(a: &[u8], b: &[u8]) -> (r: bool)
    ensures
        r == (a@ == b@),
{
    if a.len() != b.len() {
        return false;
    }
    let mut i: usize = 0;
    while i < a.len()
        invariant
            i <= a@.len() == b@.len(),
            forall|j: int| 0 <= j < i ==> a@[j] == b@[j],
        decreases a.len() - i,
    {
        if a[i] != b[i] {
            return false;
        }
        i = i + 1;
    }
    assert(a@ =~= b@);
    true
}

/// Whether `k` is the key of field `f`.
fn is_key(k: &[u8], f: Field) -> (r: bool)
    ensures
        r == (k@ == field_key(f)),
{
    let kb = key_bytes(f);
    same_bytes(k, kb.as_slice())
}

/// The field that a key names.
fn classify(k: &[u8]) -> (r: Option<Field>)
    ensures
        r == field_of(k@),
{
    if is_key(k, Field::Name) {
        Some(Field::Name)
    } else if is_key(k, Field::Model) {
        Some(Field::Model)
    } else if is_key(k, Field::Pattern) {
        Some(Field::Pattern)
    } else if is_key(k, Field::CaseInsensitive) {
        Some(Field::CaseInsensitive)
    } else if is_key(k, Field::Unicode) {
        Some(Field::Unicode)
    } else if is_key(k, Field::Haystack) {
        Some(Field::Haystack)
    } else if is_key(k, Field::MaxIters) {
        Some(Field::MaxIters)
    } else if is_key(k, Field::MaxWarmupIters) {
        Some(Field::MaxWarmupIters)
    } else if is_key(k, Field::MaxTime) {
        Some(Field::MaxTime)
    } else if is_key(k, Field::MaxWarmupTime) {
        Some(Field::MaxWarmupTime)
    } else {
        None
    }
}

/// Relies on bstr's `ByteSlice::to_str`: it succeeds exactly when the bytes are
/// valid UTF-8, and then yields the text that they encode.
#[verifier::external_body]
pub(crate) fn utf8_text(b: &[u8]) -> (r: Option<String>)
    ensures
        r is Some <==> valid_utf8(b@),
        match r {
            Some(t) => t@ == decode_utf8(b@),
            None => true,
        },
{
    bstr::ByteSlice::to_str(b).ok().map(|t| t.to_string())
}

/// A value read as `true` or `false`.
fn read_bool(v: &[u8]) -> (r: Option<bool>)
    ensures
        r == parse_bool(v@),
{
    let t = bool_vec(true);
    let f = bool_vec(false);
    if same_bytes(v, t.as_slice()) {
        Some(true)
    } else if same_bytes(v, f.as_slice()) {
        Some(false)
    } else {
        None
    }
}

/// A value read as a 64-bit unsigned decimal.
fn read_number(v: &[u8]) -> (r: Option<u64>)
    ensures
        r == parse_number(v@),
{
    let r = parse_u64(v, 0, v.len());
    assert(v@.subrange(0, v@.len() as int) =~= v@);
    r
}

/// The configuration of the patterns of one benchmark.
#[derive(Clone, Debug)]
pub struct RegexConfig {
    /// The patterns, in order. Zero patterns is legal.
    pub patterns: Vec<String>,
    /// Whether the patterns match case insensitively.
    pub case_insensitive: bool,
    /// Whether the patterns are compiled in Unicode mode.
    pub unicode: bool,
}

/// One benchmark request, as a runner receives it.
#[derive(Clone, Debug)]
pub struct Benchmark {
    pub name: String,
    pub model: String,
    pub regex: RegexConfig,
    /// The haystack, as opaque bytes.
    pub haystack: Vec<u8>,
    pub max_iters: u64,
    pub max_warmup_iters: u64,
    /// The time budget of the measured iterations, in nanoseconds.
    pub max_time: u64,
    /// The time budget of the warm-up iterations, in nanoseconds.
    pub max_warmup_time: u64,
}

/// The texts of a list of strings.
pub open spec fn texts(v: Seq<String>) -> Seq<Seq<char>> {
    v.map_values(|p: String| p@)
}

impl View for Benchmark {
    type V = BenchmarkModel;

    open spec fn view(&self) -> BenchmarkModel {
        BenchmarkModel {
            name: self.name@,
            model: self.model@,
            patterns: texts(self.regex.patterns@),
            case_insensitive: self.regex.case_insensitive,
            unicode: self.regex.unicode,
            haystack: self.haystack@,
            max_iters: self.max_iters,
            max_warmup_iters: self.max_warmup_iters,
            max_time: self.max_time,
            max_warmup_time: self.max_warmup_time,
        }
    }
}

impl Default for Benchmark {
    fn default() -> (r: Benchmark)
        ensures
            r@ == empty_model(),
    {
        let b = Benchmark {
            name: String::new(),
            model: String::new(),
            regex: RegexConfig { patterns: Vec::new(), case_insensitive: false, unicode: false },
            haystack: Vec::new(),
            max_iters: 0,
            max_warmup_iters: 0,
            max_time: 0,
            max_warmup_time: 0,
        };
        assert(b@.patterns =~= Seq::<Seq<char>>::empty());
        b
    }
}

/// Sets the field that a record names; false when its value has the wrong shape.
fn apply(bench: &mut Benchmark, k: &[u8], v: Vec<u8>) -> (ok: bool)
    ensures
        match apply_record(old(bench)@, k@, v@) {
            Some(m) => ok && final(bench)@ == m,
            None => !ok && final(bench)@ == old(bench)@,
        },
{
    let f = match classify(k) {
        None => return true,
        Some(f) => f,
    };
    match f {
        Field::Name => match utf8_text(v.as_slice()) {
            Some(t) => {
                bench.name = t;
                true
            },
            None => false,
        },
        Field::Model => match utf8_text(v.as_slice()) {
            Some(t) => {
                bench.model = t;
                true
            },
            None => false,
        },
        Field::Pattern => match utf8_text(v.as_slice()) {
            Some(t) => {
                let ghost before = bench.regex.patterns@;
                bench.regex.patterns.push(t);
                assert(texts(bench.regex.patterns@) =~= texts(before).push(decode_utf8(v@)));
                true
            },
            None => false,
        },
        Field::CaseInsensitive => match read_bool(v.as_slice()) {
            Some(x) => {
                bench.regex.case_insensitive = x;
                true
            },
            None => false,
        },
        Field::Unicode => match read_bool(v.as_slice()) {
            Some(x) => {
                bench.regex.unicode = x;
                true
            },
            None => false,
        },
        Field::Haystack => {
            bench.haystack = v;
            true
        },
        Field::MaxIters => match read_number(v.as_slice()) {
            Some(n) => {
                bench.max_iters = n;
                true
            },
            None => false,
        },
        Field::MaxWarmupIters => match read_number(v.as_slice()) {
            Some(n) => {
                bench.max_warmup_iters = n;
                true
            },
            None => false,
        },
        Field::MaxTime => match read_number(v.as_slice()) {
            Some(n) => {
                bench.max_time = n;
                true
            },
            None => false,
        },
        Field::MaxWarmupTime => match read_number(v.as_slice()) {
            Some(n) => {
                bench.max_warmup_time = n;
                true
            },
            None => false,
        },
    }
}

/// Appends `src` to `out`.
pub(crate) fn push_bytes(out: &mut Vec<u8>, src: &[u8])
    ensures
        final(out)@ == old(out)@ + src@,
{
    let ghost start = out@;
    let mut i: usize = 0;
    while i < src.len()
        invariant
            i <= src@.len(),
            out@ == start + src@.take(i as int),
        decreases src.len() - i,
    {
        out.push(src[i]);
        i = i + 1;
        assert(out@ =~= start + src@.take(i as int));
    }
    assert(src@.take(i as int) =~= src@);
}

/// Appends the record `k:len(v):v\n` to `out`.
fn push_record(out: &mut Vec<u8>, k: &[u8], v: &[u8])
    ensures
        final(out)@ == old(out)@ + record(k@, v@),
{
    let ghost start = out@;
    push_bytes(out, k);
    out.push(58);
    push_decimal(out, v.len() as u64);
    out.push(58);
    push_bytes(out, v);
    out.push(10);
    assert(out@ =~= start + record(k@, v@));
}

/// Appends the record of a numeric field to `out`.
fn push_number(out: &mut Vec<u8>, f: Field, n: u64)
    ensures
        final(out)@ == old(out)@ + record(field_key(f), decimal(n as nat)),
{
    let mut digits: Vec<u8> = Vec::new();
    push_decimal(&mut digits, n);
    assert(digits@ =~= decimal(n as nat));
    push_record(out, key_bytes(f).as_slice(), digits.as_slice());
}

/// The pattern records of the first `i + 1` patterns extend those of the first `i`.
proof fn lemma_patterns_push(ps: Seq<Seq<char>>, x: Seq<char>)
    ensures
        patterns_encoding(ps.push(x)) == patterns_encoding(ps) + record(
            field_key(Field::Pattern),
            encode_utf8(x),
        ),
    decreases ps.len(),
{
    let r = record(field_key(Field::Pattern), encode_utf8(x));
    if ps.len() == 0 {
        assert(ps.push(x).skip(1) =~= Seq::<Seq<char>>::empty());
        assert(patterns_encoding(ps.push(x).skip(1)) == Seq::<u8>::empty());
        assert(ps.push(x)[0] == x);
        assert(patterns_encoding(ps.push(x)) =~= r + Seq::<u8>::empty());
        assert(patterns_encoding(ps) + r =~= r);
    } else {
        assert(ps.push(x).skip(1) =~= ps.skip(1).push(x));
        lemma_patterns_push(ps.skip(1), x);
        let h = record(field_key(Field::Pattern), encode_utf8(ps[0]));
        assert(h + (patterns_encoding(ps.skip(1)) + r) =~= (h + patterns_encoding(ps.skip(1))) + r);
    }
}

/// The records of the scalar fields, in order.
pub open spec fn scalars_encoding(m: BenchmarkModel) -> Seq<u8> {
    record(field_key(Field::Name), encode_utf8(m.name)) + record(
        field_key(Field::Model),
        encode_utf8(m.model),
    ) + record(field_key(Field::CaseInsensitive), bool_bytes(m.case_insensitive)) + record(
        field_key(Field::Unicode),
        bool_bytes(m.unicode),
    ) + record(field_key(Field::MaxIters), decimal(m.max_iters as nat)) + record(
        field_key(Field::MaxWarmupIters),
        decimal(m.max_warmup_iters as nat),
    ) + record(field_key(Field::MaxTime), decimal(m.max_time as nat)) + record(
        field_key(Field::MaxWarmupTime),
        decimal(m.max_warmup_time as nat),
    )
}

/// The encoding is the scalar records, then the pattern records, then the haystack.
proof fn lemma_encoding_parts(m: BenchmarkModel)
    ensures
        encoding(m) == scalars_encoding(m) + patterns_encoding(m.patterns) + record(
            field_key(Field::Haystack),
            m.haystack,
        ),
{
    let r1 = record(field_key(Field::Name), encode_utf8(m.name));
    let r2 = record(field_key(Field::Model), encode_utf8(m.model));
    let r3 = record(field_key(Field::CaseInsensitive), bool_bytes(m.case_insensitive));
    let r4 = record(field_key(Field::Unicode), bool_bytes(m.unicode));
    let r5 = record(field_key(Field::MaxIters), decimal(m.max_iters as nat));
    let r6 = record(field_key(Field::MaxWarmupIters), decimal(m.max_warmup_iters as nat));
    let r7 = record(field_key(Field::MaxTime), decimal(m.max_time as nat));
    let r8 = record(field_key(Field::MaxWarmupTime), decimal(m.max_warmup_time as nat));
    let p = patterns_encoding(m.patterns);
    let h = record(field_key(Field::Haystack), m.haystack);
    let t8 = p + h;
    let t7 = r8 + t8;
    let t6 = r7 + t7;
    let t5 = r6 + t6;
    let t4 = r5 + t5;
    let t3 = r4 + t4;
    let t2 = r3 + t3;
    let t1 = r2 + t2;
    let l2 = r1 + r2;
    let l3 = l2 + r3;
    let l4 = l3 + r4;
    let l5 = l4 + r5;
    let l6 = l5 + r6;
    let l7 = l6 + r7;
    let l8 = l7 + r8;
    assert(encoding(m) == r1 + t1);
    assert(scalars_encoding(m) == l8);
    lemma_concat_associative(r1, r2, t2);
    lemma_concat_associative(l2, r3, t3);
    lemma_concat_associative(l3, r4, t4);
    lemma_concat_associative(l4, r5, t5);
    lemma_concat_associative(l5, r6, t6);
    lemma_concat_associative(l6, r7, t7);
    lemma_concat_associative(l7, r8, t8);
    lemma_concat_associative(l8, p, h);
}

/// Appends the records of the scalar fields of `b` to `out`.
fn write_scalars(b: &Benchmark, out: &mut Vec<u8>)
    ensures
        final(out)@ == old(out)@ + scalars_encoding(b@),
{
    let ghost start = out@;
    push_record(out, key_bytes(Field::Name).as_slice(), b.name.as_str().as_bytes());
    push_record(out, key_bytes(Field::Model).as_slice(), b.model.as_str().as_bytes());
    let ci = bool_vec(b.regex.case_insensitive);
    push_record(out, key_bytes(Field::CaseInsensitive).as_slice(), ci.as_slice());
    let uni = bool_vec(b.regex.unicode);
    push_record(out, key_bytes(Field::Unicode).as_slice(), uni.as_slice());
    push_number(out, Field::MaxIters, b.max_iters);
    push_number(out, Field::MaxWarmupIters, b.max_warmup_iters);
    push_number(out, Field::MaxTime, b.max_time);
    push_number(out, Field::MaxWarmupTime, b.max_warmup_time);
    assert(out@ =~= start + scalars_encoding(b@));
}

/// Appends one record per pattern of `b` to `out`.
fn write_patterns(b: &Benchmark, out: &mut Vec<u8>)
    ensures
        final(out)@ == old(out)@ + patterns_encoding(b@.patterns),
{
    let ghost start = out@;
    let ghost ps = texts(b.regex.patterns@);
    let pk = key_bytes(Field::Pattern);
    let mut i: usize = 0;
    assert(ps.take(0) =~= Seq::<Seq<char>>::empty());
    assert(start =~= start + patterns_encoding(ps.take(0)));
    while i < b.regex.patterns.len()
        invariant
            i <= b.regex.patterns@.len(),
            ps == texts(b.regex.patterns@),
            pk@ == field_key(Field::Pattern),
            out@ == start + patterns_encoding(ps.take(i as int)),
        decreases b.regex.patterns.len() - i,
    {
        let p = &b.regex.patterns[i];
        let ghost before = out@;
        push_record(out, pk.as_slice(), p.as_str().as_bytes());
        proof {
            assert(ps.take(i + 1) =~= ps.take(i as int).push(ps[i as int]));
            lemma_patterns_push(ps.take(i as int), ps[i as int]);
            assert(out@ =~= start + patterns_encoding(ps.take(i + 1)));
        }
        i = i + 1;
    }
    assert(ps.take(i as int) =~= ps);
}

impl Benchmark {
    /// Decodes a whole KLV stream as one benchmark request. An empty stream is
    /// a request with every field empty or zero; unknown keys are skipped.
    pub fn read(bytes: &[u8]) -> (r: Result<Benchmark, KlvError>)
        ensures
            match r {
                Ok(b) => decode(bytes@) == Ok::<_, DecodeError>(b@),
                Err(e) => decode(bytes@) == Err::<BenchmarkModel, _>((e.kind, key_view(e.key))),
            },
    {
        let mut bench = Benchmark::default();
        let mut pos: usize = 0;
        assert(bytes@.skip(0) =~= bytes@);
        while pos < bytes.len()
            invariant
                pos <= bytes@.len(),
                decode(bytes@) == decode_from(bytes@.skip(pos as int), bench@),
            decreases bytes.len() - pos,
        {
            let ghost s = bytes@.skip(pos as int);
            let (key, value, next) = match read_record(bytes, pos) {
                Ok(x) => x,
                Err(e) => {
                    return Err(e);
                },
            };
            if !apply(&mut bench, key.as_slice(), value) {
                return Err(KlvError { kind: KlvErrorKind::InvalidValue, key: Some(key) });
            }
            assert(s.skip(next - pos) =~= bytes@.skip(next as int));
            pos = next;
        }
        assert(bytes@.skip(pos as int) =~= Seq::<u8>::empty());
        Ok(bench)
    }

    /// Appends this request to `out` in KLV form: the scalar fields first, then
    /// one record per pattern, then the haystack.
    pub fn write(&self, out: &mut Vec<u8>)
        ensures
            final(out)@ == old(out)@ + encoding(self@),
    {
        let ghost start = out@;
        write_scalars(self, out);
        write_patterns(self, out);
        push_record(out, key_bytes(Field::Haystack).as_slice(), self.haystack.as_slice());
        proof {
            lemma_encoding_parts(self@);
            assert(out@ =~= start + encoding(self@));
        }
    }
}

impl RegexConfig {
    /// The pattern, when there is exactly one; otherwise the number of patterns.
    pub fn one(&self) -> (r: Result<&String, usize>)
        ensures
            match r {
                Ok(p) => self.patterns@.len() == 1 && *p == self.patterns@[0],
                Err(n) => self.patterns@.len() != 1 && n == self.patterns@.len(),
            },
    {
        if self.patterns.len() == 1 {
            Ok(&self.patterns[0])
        } else {
            Err(self.patterns.len())
        }
    }
}

impl Benchmark {
    /// The haystack as text, when it is valid UTF-8.
    pub fn haystack_str(&self) -> (r: Option<String>)
        ensures
            r is Some <==> valid_utf8(self.haystack@),
            match r {
                Some(t) => t@ == decode_utf8(self.haystack@),
                None => true,
            },
    {
        utf8_text(self.haystack.as_slice())
    }
}

} // verus!
