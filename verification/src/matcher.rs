//! The timing-line matcher: a line is a cue timing line exactly when it ends
//! in two twelve-byte timestamps joined by ` --> `. The shape is anchored at
//! the end of the line, so the match occupies its last 29 bytes.

use vstd::prelude::*;

use crate::time_codec::is_timestamp;

verus! {

/// The ` --> ` separator stands at bytes `i..i+5`.
pub open spec fn arrow_at(s: Seq<u8>, i: int) -> bool {
    s[i] == 32 && s[i + 1] == 45 && s[i + 2] == 45 && s[i + 3] == 62 && s[i + 4] == 32
}

/// A cue timing line: `start --> end` anchored at the end of the line, each
/// endpoint a timestamp with either decimal separator.
pub open spec fn spec_is_timing_line(line: Seq<u8>) -> bool {
    let n = line.len() as int;
    &&& n >= 29
    &&& is_timestamp(line.subrange(n - 29, n - 17))
    &&& arrow_at(line, n - 17)
    &&& is_timestamp(line.subrange(n - 12, n))
}

/// The start field of a matched line.
pub open spec fn start_field(line: Seq<u8>) -> Seq<u8> {
    line.subrange(line.len() - 29, line.len() - 17)
}

/// The end field of a matched line.
pub open spec fn end_field(line: Seq<u8>) -> Seq<u8> {
    line.subrange(line.len() - 12, line.len() as int)
}

/// Checks the timestamp shape at byte offset `at`.
fn timestamp_at(line: &Vec<u8>, at: usize) -> (r: bool)
    requires
        at + 12 <= line@.len(),
    ensures
        r == is_timestamp(line@.subrange(at as int, at + 12)),
{
    let ghost f = line@.subrange(at as int, at + 12);
    let n = line.len();
    assert(at + 12 <= n);
    let r = digit_at(line, at) && digit_at(line, at + 1) && line[at + 2] == 58 && digit_at(
        line,
        at + 3,
    ) && digit_at(line, at + 4) && line[at + 5] == 58 && digit_at(line, at + 6) && digit_at(
        line,
        at + 7,
    ) && (line[at + 8] == 46 || line[at + 8] == 44) && digit_at(line, at + 9) && digit_at(
        line,
        at + 10,
    ) && digit_at(line, at + 11);
    assert(forall|i: int| 0 <= i < 12 ==> f[i] == line@[at + i]);
    r
}

/// The byte at `i` is an ASCII digit.
fn digit_at(line: &Vec<u8>, i: usize) -> (r: bool)
    requires
        i < line@.len(),
    ensures
        r == crate::digits::is_ascii_digit(line@[i as int]),
{
    48 <= line[i] && line[i] <= 57
}

/// Decides whether a line is a cue timing line.
pub fn is_timing_line(line: &Vec<u8>) -> (r: bool)
    ensures
        r == spec_is_timing_line(line@),
{
    let n = line.len();
    if n < 29 {
        return false;
    }
    timestamp_at(line, n - 29) && line[n - 17] == 32 && line[n - 16] == 45 && line[n - 15] == 45
        && line[n - 14] == 62 && line[n - 13] == 32 && timestamp_at(line, n - 12)
}

/// Copies `line[from..to]` into a fresh vector.
pub fn copy_range(line: &Vec<u8>, from: usize, to: usize) -> (r: Vec<u8>)
    requires
        from <= to <= line@.len(),
    ensures
        r@ == line@.subrange(from as int, to as int),
{
    let mut out: Vec<u8> = Vec::new();
    let mut i: usize = from;
    while i < to
        invariant
            from <= i <= to <= line@.len(),
            out@ =~= line@.subrange(from as int, i as int),
        decreases to - i,
    {
        out.push(line[i]);
        i = i + 1;
        assert(out@ =~= line@.subrange(from as int, i as int));
    }
    out
}

/// Returns the two timestamp fields of a matched timing line, start first.
pub fn extract_endpoints(line: &Vec<u8>) -> (r: (Vec<u8>, Vec<u8>))
    requires
        spec_is_timing_line(line@),
    ensures
        r.0@ == start_field(line@),
        r.1@ == end_field(line@),
{
    let n = line.len();
    let start = copy_range(line, n - 29, n - 17);
    let end = copy_range(line, n - 12, n);
    (start, end)
}

} // verus!
