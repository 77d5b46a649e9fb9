//! Small selectors and the usage entries of the command line.
use vstd::prelude::*;
use vstd::utf8::*;

use crate::klv::{push_bytes, utf8_text};
use crate::order::lemma_ascii_valid;

verus! {

broadcast use vstd::utf8::group_utf8_lib;

/// When output is coloured.
#[derive(Clone, Copy, Debug, PartialEq, Eq, Structural)]
pub enum Color {
    /// Only when the output is a terminal.
    Auto,
    /// Always.
    Always,
    /// Never.
    Never,
}

/// The units in which comparisons are shown.
#[derive(Clone, Copy, Debug, PartialEq, Eq, Structural)]
pub enum Units {
    Time,
    Throughput,
}

impl Color {
    /// The mode of a name: one of auto, always, never.
    pub fn from_name(s: &str) -> (r: Option<Color>)
        ensures
            r == if s@ == "auto"@ {
                Some(Color::Auto)
            } else if s@ == "always"@ {
                Some(Color::Always)
            } else if s@ == "never"@ {
                Some(Color::Never)
            } else {
                None
            },
    {
        let t = s.to_owned();
        if t == "auto".to_owned() {
            Some(Color::Auto)
        } else if t == "always".to_owned() {
            Some(Color::Always)
        } else if t == "never".to_owned() {
            Some(Color::Never)
        } else {
            None
        }
    }
}

impl Default for Color {
    fn default() -> (r: Color)
        ensures
            r == Color::Auto,
    {
        Color::Auto
    }
}

impl Units {
    /// The units of a name: one of time, throughput.
    pub fn from_name(s: &str) -> (r: Option<Units>)
        ensures
            r == if s@ == "time"@ {
                Some(Units::Time)
            } else if s@ == "throughput"@ {
                Some(Units::Throughput)
            } else {
                None
            },
    {
        let t = s.to_owned();
        if t == "time".to_owned() {
            Some(Units::Time)
        } else if t == "throughput".to_owned() {
            Some(Units::Throughput)
        } else {
            None
        }
    }
}

impl Default for Units {
    fn default() -> (r: Units)
        ensures
            r == Units::Throughput,
    {
        Units::Throughput
    }
}

/// The documentation of one flag.
#[derive(Clone, Copy, Debug)]
pub struct Usage {
    /// How the flag is written, for example `-d, --dir <directory>`.
    pub format: &'static str,
    /// A one-line description.
    pub short: &'static str,
    /// A longer description, in paragraphs.
    pub long: &'static str,
}

/// `n` spaces.
pub open spec fn spaces(n: nat) -> Seq<u8> {
    Seq::new(n, |_i: int| 32u8)
}

/// The widest flag format of the usages, in bytes.
pub open spec fn format_width(us: Seq<Usage>) -> nat
    decreases us.len(),
{
    if us.len() == 0 {
        0
    } else {
        let w = format_width(us.drop_last());
        let l = encode_utf8(us.last().format@).len();
        if l > w {
            l
        } else {
            w
        }
    }
}

/// One row of the short table: indented format, padding to two columns past
/// the widest format, then the short description.
pub open spec fn usage_row(u: Usage, width: nat) -> Seq<u8> {
    let f = encode_utf8(u.format@);
    spaces(4) + f + spaces((2 + width - f.len()) as nat) + encode_utf8(u.short@) + seq![10u8]
}

/// The rows of the short table, in order.
pub open spec fn usage_rows(us: Seq<Usage>, width: nat) -> Seq<u8>
    decreases us.len(),
{
    if us.len() == 0 {
        Seq::empty()
    } else {
        usage_rows(us.drop_last(), width) + usage_row(us.last(), width)
    }
}

/// Appends `n` spaces.
fn push_spaces(out: &mut Vec<u8>, n: usize)
    ensures
        final(out)@ == old(out)@ + spaces(n as nat),
{
    let ghost start = out@;
    let mut i: usize = 0;
    while i < n
        invariant
            i <= n,
            out@ == start + spaces(i as nat),
        decreases n - i,
    {
        out.push(32);
        i = i + 1;
        assert(out@ =~= start + spaces(i as nat));
    }
}

impl Usage {
    /// A two-column table of the usages: each flag's format, indented by four
    /// spaces and padded to two spaces past the widest format, then its short
    /// description, one row per line.
    pub fn short(usages: &[Usage]) -> (r: String)
        ensures
            r@ == decode_utf8(usage_rows(usages@, format_width(usages@))),
    {
        let ghost us = usages@;
        let mut width: usize = 0;
        let mut i: usize = 0;
        while i < usages.len()
            invariant
                i <= us.len(),
                us == usages@,
                width == format_width(us.take(i as int)),
            decreases usages.len() - i,
        {
            let l = usages[i].format.as_bytes().len();
            if l > width {
                width = l;
            }
            proof {
                assert(us.take(i + 1).drop_last() =~= us.take(i as int));
                assert(us.take(i + 1).last() == us[i as int]);
            }
            i = i + 1;
        }
        assert(us.take(i as int) =~= us);
        let mut out: Vec<u8> = Vec::new();
        let mut k: usize = 0;
        assert(usage_rows(us.take(0), width as nat) =~= Seq::<u8>::empty());
        proof {
            lemma_ascii_valid(Seq::<u8>::empty());
        }
        while k < usages.len()
            invariant
                k <= us.len(),
                us == usages@,
                width == format_width(us),
                out@ == usage_rows(us.take(k as int), width as nat),
                valid_utf8(out@),
            decreases usages.len() - k,
        {
            let u = usages[k];
            proof {
                lemma_width_bounds(us, k as int);
            }
            let ghost before = out@;
            push_spaces(&mut out, 4);
            push_bytes(&mut out, u.format.as_bytes());
            push_spaces(&mut out, 2);
            push_spaces(&mut out, width - u.format.as_bytes().len());
            push_bytes(&mut out, u.short.as_bytes());
            out.push(10);
            proof {
                let f = encode_utf8(u.format@);
                let pad = spaces((2 + width - f.len()) as nat);
                assert(spaces(2) + spaces((width - f.len()) as nat) =~= pad);
                let row = usage_row(u, width as nat);
                assert(out@ =~= before + row);
                lemma_ascii_valid(spaces(4));
                lemma_ascii_valid(pad);
                lemma_ascii_valid(seq![10u8]);
                let a = spaces(4) + f;
                assert(valid_utf8(f));
                valid_utf8_concat(spaces(4), f);
                let b = a + pad;
                valid_utf8_concat(a, pad);
                let c = b + encode_utf8(u.short@);
                valid_utf8_concat(b, encode_utf8(u.short@));
                valid_utf8_concat(c, seq![10u8]);
                assert(row == c + seq![10u8]);
                assert(valid_utf8(row));
                valid_utf8_concat(before, row);
                assert(us.take(k + 1).drop_last() =~= us.take(k as int));
                assert(us.take(k + 1).last() == us[k as int]);
            }
            k = k + 1;
        }
        assert(us.take(k as int) =~= us);
        match utf8_text(out.as_slice()) {
            Some(t) => t,
            None => String::new(),
        }
    }

    /// A usage entry from its parts.
    pub fn new(format: &'static str, short: &'static str, long: &'static str) -> (r: Usage)
        ensures
            r.format == format,
            r.short == short,
            r.long == long,
    {
        Usage { format, short, long }
    }
}

/// The bytes of ` (rev `.
pub open spec fn rev_prefix() -> Seq<u8> {
    seq![32u8, 40, 114, 101, 118, 32]
}

/// The text of a version: the package version, then ` (rev <revision>)` when
/// the revision is known.
pub open spec fn version_bytes(package: Seq<char>, revision: Option<Seq<char>>) -> Seq<u8> {
    match revision {
        None => encode_utf8(package),
        Some(r) => encode_utf8(package) + rev_prefix() + encode_utf8(r) + seq![41u8],
    }
}

/// The complete version of the harness: the package version, with the
/// revision that it was built from when that is known.
pub fn version(package: &str, revision: Option<&str>) -> (r: String)
    ensures
        r@ == decode_utf8(version_bytes(package@, match revision {
            Some(x) => Some(x@),
            None => None,
        })),
{
    let mut out: Vec<u8> = Vec::new();
    push_bytes(&mut out, package.as_bytes());
    let ghost rv = match revision {
        Some(x) => Some(x@),
        None => None::<Seq<char>>,
    };
    match revision {
        Some(rev) => {
            let prefix = vec![32u8, 40, 114, 101, 118, 32];
            push_bytes(&mut out, prefix.as_slice());
            push_bytes(&mut out, rev.as_bytes());
            out.push(41);
            proof {
                let p = encode_utf8(package@);
                lemma_ascii_valid(rev_prefix());
                lemma_ascii_valid(seq![41u8]);
                assert(prefix@ =~= rev_prefix());
                valid_utf8_concat(p, rev_prefix());
                valid_utf8_concat(p + rev_prefix(), encode_utf8(rev@));
                valid_utf8_concat(p + rev_prefix() + encode_utf8(rev@), seq![41u8]);
                assert(out@ =~= version_bytes(package@, rv));
            }
        },
        None => {
            assert(out@ =~= version_bytes(package@, rv));
        },
    }
    match utf8_text(out.as_slice()) {
        Some(t) => t,
        None => String::new(),
    }
}

/// No format is wider than the widest.
proof fn lemma_width_bounds(us: Seq<Usage>, k: int)
    requires
        0 <= k < us.len(),
    ensures
        encode_utf8(us[k].format@).len() <= format_width(us),
    decreases us.len(),
{
    if k < us.len() - 1 {
        lemma_width_bounds(us.drop_last(), k);
        assert(us.drop_last()[k] == us[k]);
    }
}

} // verus!
