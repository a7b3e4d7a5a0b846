use vstd::prelude::*;

use crate::args::DisplayFormat;
use crate::order::{comps, RelPath};

verus! {

/// One reported path and the bytes it takes.
#[derive(Clone, Debug)]
pub struct DiskUsage {
    /// The path as shown: the root joined with `rel`.
    pub path: String,
    /// The components of the path below the root; empty for the root itself.
    pub rel: Vec<String>,
    /// Size in bytes.
    pub size: u64,
    pub is_dir: bool,
}

/// What a report entry says: where, how much, and whether it is a directory.
pub struct EntryView {
    pub rel: RelPath,
    pub size: nat,
    pub is_dir: bool,
}

impl DiskUsage {
    pub open spec fn view(&self) -> EntryView {
        EntryView { rel: comps(self.rel@), size: self.size as nat, is_dir: self.is_dir }
    }

    /// Writes the entry as its formatted size, a tab and its path.
    pub fn format(&self, format: DisplayFormat) -> (r: String)
        ensures
            r@ == size_text(self.size, format) + seq!['\t'] + self.path@,
    {
        let mut s = match format {
            DisplayFormat::Bytes => decimal_string(self.size),
            DisplayFormat::Kilobytes => decimal_string(kilobytes(self.size)),
            DisplayFormat::Binary => binary_size(self.size),
            DisplayFormat::Decimal => decimal_size(self.size),
        };
        proof {
            reveal_strlit("\t");
        }
        s.append("\t");
        s.append(self.path.as_str());
        s
    }
}

/// The text that humansize's `format_size` gives for `size` with its
/// BINARY options (units of 1024: KiB, MiB, ...).
pub uninterp spec fn binary_size_text(size: u64) -> Seq<char>;

/// The text that humansize's `format_size` gives for `size` with its
/// DECIMAL options (units of 1000: kB, MB, ...).
pub uninterp spec fn decimal_size_text(size: u64) -> Seq<char>;

/// Relies on humansize::format_size with humansize::BINARY: the text
/// depends on the size alone.
#[verifier::external_body]
fn binary_size(size: u64) -> (r: String)
    ensures
        r@ == binary_size_text(size),
{
    humansize::format_size(size, humansize::BINARY)
}

/// Relies on humansize::format_size with humansize::DECIMAL: the text
/// depends on the size alone.
#[verifier::external_body]
fn decimal_size(size: u64) -> (r: String)
    ensures
        r@ == decimal_size_text(size),
{
    humansize::format_size(size, humansize::DECIMAL)
}

/// The size written as `format` asks.
pub open spec fn size_text(size: u64, format: DisplayFormat) -> Seq<char> {
    match format {
        DisplayFormat::Bytes => decimal(size as nat),
        DisplayFormat::Kilobytes => decimal(ceil_div(size as nat, 1024)),
        DisplayFormat::Binary => binary_size_text(size),
        DisplayFormat::Decimal => decimal_size_text(size),
    }
}

pub open spec fn ceil_div(n: nat, d: nat) -> nat
    recommends
        d > 0,
{
    ((n + d - 1) / d as int) as nat
}

/// The digit that stands for `d`.
pub open spec fn digit(d: nat) -> char {
    if d == 0 {
        '0'
    } else if d == 1 {
        '1'
    } else if d == 2 {
        '2'
    } else if d == 3 {
        '3'
    } else if d == 4 {
        '4'
    } else if d == 5 {
        '5'
    } else if d == 6 {
        '6'
    } else if d == 7 {
        '7'
    } else if d == 8 {
        '8'
    } else {
        '9'
    }
}

/// `n` in decimal, without leading zeros.
pub open spec fn decimal(n: nat) -> Seq<char>
    decreases n,
{
    if n < 10 {
        seq![digit(n)]
    } else {
        decimal(n / 10) + seq![digit(n % 10)]
    }
}

/// The number of kilobytes of 1024 bytes that `size` bytes take, rounded up.
pub fn kilobytes(size: u64) -> (r: u64)
    ensures
        r == ceil_div(size as nat, 1024),
{
    let q = size / 1024;
    let r: u64 = if size % 1024 == 0 {
        q
    } else {
        q + 1
    };
    assert(r == ceil_div(size as nat, 1024)) by (nonlinear_arith)
        requires
            q == size / 1024,
            size % 1024 == 0 ==> r == q,
            size % 1024 != 0 ==> r == q + 1,
    ;
    r
}

fn digit_str(d: u64) -> (r: &'static str)
    requires
        d < 10,
    ensures
        r@ == seq![digit(d as nat)],
{
    proof {
        reveal_strlit("0");
        reveal_strlit("1");
        reveal_strlit("2");
        reveal_strlit("3");
        reveal_strlit("4");
        reveal_strlit("5");
        reveal_strlit("6");
        reveal_strlit("7");
        reveal_strlit("8");
        reveal_strlit("9");
    }
    let r = if d == 0 {
        "0"
    } else if d == 1 {
        "1"
    } else if d == 2 {
        "2"
    } else if d == 3 {
        "3"
    } else if d == 4 {
        "4"
    } else if d == 5 {
        "5"
    } else if d == 6 {
        "6"
    } else if d == 7 {
        "7"
    } else if d == 8 {
        "8"
    } else {
        "9"
    };
    assert(r@ =~= seq![digit(d as nat)]);
    r
}

fn push_decimal(s: &mut String, n: u64)
    ensures
        final(s)@ == old(s)@ + decimal(n as nat),
    decreases n,
{
    if n >= 10 {
        push_decimal(s, n / 10);
    }
    s.append(digit_str(n % 10));
    assert(final(s)@ =~= old(s)@ + decimal(n as nat));
}

/// `n` written in decimal.
pub fn decimal_string(n: u64) -> (r: String)
    ensures
        r@ == decimal(n as nat),
{
    let mut s = String::new();
    push_decimal(&mut s, n);
    assert(s@ =~= decimal(n as nat));
    s
}

/// `p` followed by the component `c`, with a separator unless `p` is empty
/// or already ends with one.
pub open spec fn join_name(p: Seq<char>, c: Seq<char>) -> Seq<char> {
    if p.len() == 0 || p.last() == '/' {
        p + c
    } else {
        p + seq!['/'] + c
    }
}

/// The root followed by each component of `rel` in turn.
pub open spec fn joined(root: Seq<char>, rel: RelPath) -> Seq<char>
    decreases rel.len(),
{
    if rel.len() == 0 {
        root
    } else {
        join_name(joined(root, rel.drop_last()), rel.last())
    }
}

/// The path of `rel` below `root`, as shown.
pub fn join_path(root: &String, rel: &Vec<String>) -> (r: String)
    ensures
        r@ == joined(root@, comps(rel@)),
{
    let mut s = root.clone();
    let mut i: usize = 0;
    assert(comps(rel@).subrange(0, 0).len() == 0);
    while i < rel.len()
        invariant
            i <= rel@.len(),
            s@ == joined(root@, comps(rel@).subrange(0, i as int)),
        decreases rel@.len() - i,
    {
        let ghost prev = s@;
        let n = s.as_str().unicode_len();
        if n != 0 && s.as_str().get_char(n - 1) != '/' {
            proof {
                reveal_strlit("/");
            }
            s.append("/");
        }
        s.append(rel[i].as_str());
        proof {
            let sub = comps(rel@).subrange(0, i + 1);
            assert(sub.drop_last() =~= comps(rel@).subrange(0, i as int));
            assert(sub.last() == rel@[i as int]@);
            assert(s@ =~= join_name(prev, rel@[i as int]@));
        }
        i = i + 1;
    }
    assert(comps(rel@).subrange(0, rel@.len() as int) =~= comps(rel@));
    s
}

} // verus!
