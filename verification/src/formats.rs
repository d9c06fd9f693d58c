//! The two subtitle formats and their decimal-separator conventions.
//!
//! SubRip (`.srt`) writes `00:00:10,000`; WebVTT (`.vtt`) writes
//! `00:00:10.000`. Internally a timing line is normalized to the dot form;
//! just before emission it is converted to the convention of the target
//! format. The conversions work on whole lines and swap every comma
//! (respectively dot) of the line they are given; they are applied to
//! timing lines only, never to cue text.

use vstd::prelude::*;

use crate::errors::SubError;

verus! {

/// A subtitle format, named by its file extension.
#[derive(Clone, Copy, Debug, PartialEq, Eq, Structural)]
pub enum Format {
    Srt,
    Vtt,
}

/// `s` with every comma turned into a dot.
pub open spec fn spec_to_dots(s: Seq<u8>) -> Seq<u8> {
    s.map_values(|b: u8| if b == 44 { 46u8 } else { b })
}

/// `s` with every dot turned into a comma.
pub open spec fn spec_to_commas(s: Seq<u8>) -> Seq<u8> {
    s.map_values(|b: u8| if b == 46 { 44u8 } else { b })
}

/// The line as it is emitted for a target format: dot separators for VTT,
/// comma separators for SRT.
pub open spec fn spec_emit(line: Seq<u8>, target: Format) -> Seq<u8> {
    match target {
        Format::Srt => spec_to_commas(line),
        Format::Vtt => line,
    }
}

/// Replaces every comma of the line by a dot.
pub fn to_dots(line: &Vec<u8>) -> (r: Vec<u8>)
    ensures
        r@ == spec_to_dots(line@),
{
    let mut out: Vec<u8> = Vec::new();
    let mut i: usize = 0;
    while i < line.len()
        invariant
            i <= line.len(),
            out@ =~= spec_to_dots(line@.take(i as int)),
        decreases line.len() - i,
    {
        let b = line[i];
        out.push(if b == 44 { 46 } else { b });
        i = i + 1;
        assert(line@.take(i as int).drop_last() =~= line@.take(i - 1));
        assert(out@ =~= spec_to_dots(line@.take(i as int)));
    }
    assert(line@.take(line@.len() as int) =~= line@);
    out
}

/// Replaces every dot of the line by a comma.
pub fn to_commas(line: &Vec<u8>) -> (r: Vec<u8>)
    ensures
        r@ == spec_to_commas(line@),
{
    let mut out: Vec<u8> = Vec::new();
    let mut i: usize = 0;
    while i < line.len()
        invariant
            i <= line.len(),
            out@ =~= spec_to_commas(line@.take(i as int)),
        decreases line.len() - i,
    {
        let b = line[i];
        out.push(if b == 46 { 44 } else { b });
        i = i + 1;
        assert(line@.take(i as int).drop_last() =~= line@.take(i - 1));
        assert(out@ =~= spec_to_commas(line@.take(i as int)));
    }
    assert(line@.take(line@.len() as int) =~= line@);
    out
}

/// The format a file name asks for, read off its extension.
pub open spec fn spec_name_format(s: Seq<u8>) -> Option<Format> {
    if s.len() >= 4 && s[s.len() - 4] == 46 && s[s.len() - 3] == 115 && s[s.len() - 2] == 114
        && s[s.len() - 1] == 116 {
        Some(Format::Srt)
    } else if s.len() >= 4 && s[s.len() - 4] == 46 && s[s.len() - 3] == 118 && s[s.len() - 2]
        == 116 && s[s.len() - 1] == 116 {
        Some(Format::Vtt)
    } else {
        None
    }
}

/// Determines the format a file name calls for: `Ok` exactly on names ending
/// in `.srt` or `.vtt`, and `UnsupportedTargetFormat` on every other name.
pub fn format_of_name(name: &Vec<u8>) -> (r: Result<Format, SubError>)
    ensures
        match spec_name_format(name@) {
            Some(f) => r == Ok::<Format, SubError>(f),
            None => r == Err::<Format, SubError>(SubError::UnsupportedTargetFormat),
        },
{
    let n = name.len();
    if n >= 4 && name[n - 4] == 46 {
        if name[n - 3] == 115 && name[n - 2] == 114 && name[n - 1] == 116 {
            return Ok(Format::Srt);
        }
        if name[n - 3] == 118 && name[n - 2] == 116 && name[n - 1] == 116 {
            return Ok(Format::Vtt);
        }
    }
    Err(SubError::UnsupportedTargetFormat)
}

} // verus!
