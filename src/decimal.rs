use vstd::prelude::*;

verus! {

/// True when the byte is an ASCII decimal digit.
pub open spec fn is_digit(b: u8) -> bool {
    48 <= b <= 57
}

/// A non-empty run of ASCII decimal digits.
pub open spec fn is_decimal(s: Seq<u8>) -> bool {
    s.len() > 0 && forall|i: int| 0 <= i < s.len() ==> is_digit(#[trigger] s[i])
}

/// The number that a run of decimal digits denotes.
pub open spec fn digits_value(s: Seq<u8>) -> nat
    decreases s.len(),
{
    if s.len() == 0 {
        0
    } else {
        digits_value(s.drop_last()) * 10 + (s.last() - 48) as nat
    }
}

/// The shortest decimal rendering of `n`, without leading zeros.
pub open spec fn decimal(n: nat) -> Seq<u8>
    decreases n,
{
    if n < 10 {
        seq![(n + 48) as u8]
    } else {
        decimal(n / 10).push((n % 10 + 48) as u8)
    }
}

/// The rendering of a number is a run of digits that denotes it again.
pub proof fn lemma_decimal_parses(n: nat)
    ensures
        is_decimal(decimal(n)),
        digits_value(decimal(n)) == n,
        decimal(n).len() >= 1,
    decreases n,
{
    if n >= 10 {
        lemma_decimal_parses(n / 10);
        let d = decimal(n);
        assert(d.drop_last() =~= decimal(n / 10));
        assert(d.last() == (n % 10 + 48) as u8);
        assert(n == (n / 10) * 10 + n % 10) by (nonlinear_arith);
        assert(digits_value(d) == digits_value(d.drop_last()) * 10 + (d.last() - 48) as nat);
        assert forall|i: int| 0 <= i < d.len() implies is_digit(#[trigger] d[i]) by {
            if i < d.len() - 1 {
                assert(d[i] == decimal(n / 10)[i]);
            }
        }
    } else {
        let d = decimal(n);
        assert(d.drop_last() =~= Seq::<u8>::empty());
        assert(digits_value(d.drop_last()) == 0);
        assert(digits_value(d) == digits_value(d.drop_last()) * 10 + (d.last() - 48) as nat);
    }
}

/// Parses `b[lo..hi]` as an unsigned decimal that fits in a `u64`.
pub fn parse_u64(b: &[u8], lo: usize, hi: usize) -> (r: Option<u64>)
    requires
        lo <= hi <= b@.len(),
    ensures
        ({
            let s = b@.subrange(lo as int, hi as int);
            match r {
                Some(v) => is_decimal(s) && digits_value(s) == v as nat,
                None => !is_decimal(s) || digits_value(s) > u64::MAX as nat,
            }
        }),
{
    if lo == hi {
        return None;
    }
    let ghost s = b@.subrange(lo as int, hi as int);
    let mut acc: u64 = 0;
    let mut i: usize = lo;
    while i < hi
        invariant
            lo <= i <= hi <= b@.len(),
            s == b@.subrange(lo as int, hi as int),
            forall|k: int| lo <= k < i ==> is_digit(#[trigger] b@[k]),
            digits_value(b@.subrange(lo as int, i as int)) == acc as nat,
        decreases hi - i,
    {
        let c = b[i];
        let ghost prefix = b@.subrange(lo as int, i as int);
        let ghost next = b@.subrange(lo as int, i + 1);
        assert(next.drop_last() =~= prefix);
        if c < 48 || c > 57 {
            assert(s[i - lo] == c);
            return None;
        }
        let d = (c - 48) as u64;
        if acc > 1844674407370955161 || (acc == 1844674407370955161 && d > 5) {
            proof {
                assert(digits_value(next) > u64::MAX as nat);
                if is_decimal(s) {
                    lemma_prefix_le(s, (i + 1 - lo) as int);
                    assert(s.take((i + 1 - lo) as int) =~= next);
                }
            }
            return None;
        }
        acc = acc * 10 + d;
        i = i + 1;
    }
    assert(b@.subrange(lo as int, i as int) =~= s);
    Some(acc)
}

/// A prefix of a run of digits never denotes more than the whole run.
proof fn lemma_prefix_le(s: Seq<u8>, k: int)
    requires
        0 <= k <= s.len(),
        forall|i: int| 0 <= i < s.len() ==> is_digit(#[trigger] s[i]),
    ensures
        digits_value(s.take(k)) <= digits_value(s),
    decreases s.len(),
{
    if k < s.len() {
        let t = s.drop_last();
        assert forall|i: int| 0 <= i < t.len() implies is_digit(#[trigger] t[i]) by {
            assert(t[i] == s[i]);
        }
        lemma_prefix_le(t, k);
        assert(t.take(k) =~= s.take(k));
        assert(is_digit(s[s.len() - 1]));
    } else {
        assert(s.take(k) =~= s);
    }
}

/// Appends the decimal rendering of `n` to `out`.
pub fn push_decimal(out: &mut Vec<u8>, n: u64)
    ensures
        final(out)@ == old(out)@ + decimal(n as nat),
    decreases n,
{
    if n < 10 {
        out.push((n as u8) + 48);
        assert(decimal(n as nat) =~= seq![(n + 48) as u8]);
    } else {
        push_decimal(out, n / 10);
        out.push(((n % 10) as u8) + 48);
    }
}

/// Appends the decimal rendering of a 128-bit `n` to `out`.
pub fn push_decimal_wide(out: &mut Vec<u8>, n: u128)
    ensures
        final(out)@ == old(out)@ + decimal(n as nat),
    decreases n,
{
    if n < 10 {
        out.push((n as u8) + 48);
        assert(decimal(n as nat) =~= seq![(n + 48) as u8]);
    } else {
        push_decimal_wide(out, n / 10);
        out.push(((n % 10) as u8) + 48);
    }
}

} // verus!
