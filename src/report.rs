use vstd::prelude::*;
use vstd::string::StringSliceAdditionalSpecFns;

use crate::count::{FileStats, SPACE};

verus! {

/// ASCII code of the digit zero; the other digits follow it.
pub const ZERO_DIGIT: u8 = 48;

/// Decimal digits of `n`, most significant first, without leading zeros.
pub open spec fn decimal(n: nat) -> Seq<u8>
    decreases n,
{
    if n < 10 {
        seq![(ZERO_DIGIT + n) as u8]
    } else {
        decimal(n / 10) + seq![(ZERO_DIGIT + n % 10) as u8]
    }
}

/// Appends the decimal digits of `n` to `out`.
pub fn push_decimal(out: &mut Vec<u8>, n: usize)
    ensures
        final(out)@ == old(out)@ + decimal(n as nat),
    decreases n,
{
    if n >= 10 {
        push_decimal(out, n / 10);
    }
    out.push(ZERO_DIGIT + (n % 10) as u8);
}

/// `out` followed by the count `n`, with a space between them when `out`
/// already holds something.
pub open spec fn with_count(out: Seq<u8>, n: nat) -> Seq<u8> {
    if out.len() > 0 {
        out + seq![SPACE] + decimal(n)
    } else {
        out + decimal(n)
    }
}

/// `out` followed by the count, where one is present.
pub open spec fn with_field(out: Seq<u8>, field: Option<usize>) -> Seq<u8> {
    match field {
        Some(n) => with_count(out, n as nat),
        None => out,
    }
}

/// The present counts, space-separated, in the order lines, bytes, words.
pub open spec fn fields_text(stats: FileStats) -> Seq<u8> {
    with_field(with_field(with_field(Seq::empty(), stats.lines), stats.bytes), stats.words)
}

/// The report: the present counts, then a space and the file's name. With no
/// count present the line starts with that space.
pub open spec fn report_line(stats: FileStats, name: Seq<u8>) -> Seq<u8> {
    fields_text(stats) + seq![SPACE] + name
}

/// Appends the count `n` to `out`, after a space when `out` is not empty.
pub fn push_count(out: &mut Vec<u8>, n: usize)
    ensures
        final(out)@ == with_count(old(out)@, n as nat),
{
    if out.len() > 0 {
        out.push(SPACE);
    }
    push_decimal(out, n);
}

/// Appends the count in `field`, if there is one.
fn push_field(out: &mut Vec<u8>, field: Option<usize>)
    ensures
        final(out)@ == with_field(old(out)@, field),
{
    if let Some(n) = field {
        push_count(out, n);
    }
}

/// The bytes of the report line for `stats` and the file `filename`.
pub fn render_line(stats: &FileStats, filename: &str) -> (r: Vec<u8>)
    ensures
        r@ == report_line(*stats, filename.spec_bytes()),
{
    let mut out: Vec<u8> = Vec::new();
    push_field(&mut out, stats.lines);
    push_field(&mut out, stats.bytes);
    push_field(&mut out, stats.words);
    out.push(SPACE);
    let name = filename.as_bytes();
    let mut i: usize = 0;
    while i < name.len()
        invariant
            name@ == filename.spec_bytes(),
            0 <= i <= name@.len(),
            out@ == fields_text(*stats) + seq![SPACE] + name@.take(i as int),
        decreases name@.len() - i,
    {
        out.push(name[i]);
        i = i + 1;
        proof {
            assert(name@.take(i as int) == name@.take(i - 1) + seq![name@[i - 1]]);
        }
    }
    proof {
        assert(name@.take(name@.len() as int) == name@);
    }
    out
}

} // verus!
