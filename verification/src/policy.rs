//! The offset and deletion policy. Given a matched timing line it either
//! leaves the line alone (the cue lies outside the configured window),
//! deletes the whole cue (its shifted end precedes the start of the media),
//! clamps the cue to start at zero (only its shifted start is negative), or
//! rebuilds the line from the two shifted endpoints.

use vstd::prelude::*;

use crate::matcher::end_field;
use crate::matcher::extract_endpoints;
use crate::matcher::spec_is_timing_line;
use crate::matcher::start_field;
use crate::time_codec::fmt_time;
use crate::time_codec::format_time;
use crate::time_codec::timestamp_ms;
use crate::time_codec::timestamp_value;

verus! {

/// Largest offset magnitude the engine accepts, in milliseconds
/// (about thirty-one thousand years; keeps every sum inside `i64`).
pub const OFFSET_LIMIT: i64 = 1_000_000_000_000_000;

/// The fate of one timing line: kept with the given content, or deleted
/// together with the text lines of its cue. The deletion sentinel never
/// appears as line content.
pub enum CueLine {
    Keep(Vec<u8>),
    Delete,
}

/// The ` --> ` separator of a rebuilt timing line.
pub open spec fn arrow_bytes() -> Seq<u8> {
    seq![32u8, 45u8, 45u8, 62u8, 32u8]
}

/// The cue lies entirely outside the configured window: it ends before the
/// window starts, or starts after the window stops.
pub open spec fn out_of_window(
    s_ms: int,
    e_ms: int,
    start_bound: Option<i64>,
    stop_bound: Option<i64>,
) -> bool {
    ||| (start_bound matches Some(b) && e_ms < b)
    ||| (stop_bound matches Some(b) && s_ms > b)
}

/// What becomes of a matched timing line: `None` is deletion, `Some` the
/// emitted content (before target-format separator conversion).
pub open spec fn spec_process_line(
    line: Seq<u8>,
    off: int,
    start_bound: Option<i64>,
    stop_bound: Option<i64>,
) -> Option<Seq<u8>> {
    let s_ms = timestamp_ms(start_field(line));
    let e_ms = timestamp_ms(end_field(line));
    if out_of_window(s_ms, e_ms, start_bound, stop_bound) {
        Some(line)
    } else if e_ms + off < 0 {
        None
    } else if s_ms + off < 0 {
        Some(fmt_time(0) + arrow_bytes() + fmt_time(e_ms + off))
    } else {
        Some(fmt_time(s_ms + off) + arrow_bytes() + fmt_time(e_ms + off))
    }
}

/// Applies the offset and window to one matched timing line.
pub fn process_line(
    line: &Vec<u8>,
    offset_ms: i64,
    start_bound: Option<i64>,
    stop_bound: Option<i64>,
) -> (r: CueLine)
    requires
        spec_is_timing_line(line@),
        -OFFSET_LIMIT <= offset_ms <= OFFSET_LIMIT,
    ensures
        (r is Delete) == (spec_process_line(
            line@,
            offset_ms as int,
            start_bound,
            stop_bound,
        ) is None),
        r matches CueLine::Keep(v) ==> Some(v@) == spec_process_line(
            line@,
            offset_ms as int,
            start_bound,
            stop_bound,
        ),
{
    let (sf, ef) = extract_endpoints(line);
    let s_ms = timestamp_value(&sf);
    let e_ms = timestamp_value(&ef);
    let outside = match start_bound {
        Some(b) => e_ms < b,
        None => false,
    } || match stop_bound {
        Some(b) => s_ms > b,
        None => false,
    };
    if outside {
        let mut copy: Vec<u8> = Vec::new();
        copy.extend_from_slice(line.as_slice());
        assert(copy@ =~= line@);
        return CueLine::Keep(copy);
    }
    let new_end = e_ms + offset_ms;
    if new_end < 0 {
        return CueLine::Delete;
    }
    let new_start = s_ms + offset_ms;
    let mut out = if new_start < 0 {
        format_time(0)
    } else {
        format_time(new_start)
    };
    out.push(32);
    out.push(45);
    out.push(45);
    out.push(62);
    out.push(32);
    let tail = format_time(new_end);
    out.extend_from_slice(tail.as_slice());
    proof {
        if new_start < 0 {
            assert(out@ =~= fmt_time(0) + arrow_bytes() + fmt_time(e_ms + offset_ms));
        } else {
            assert(out@ =~= fmt_time(s_ms + offset_ms) + arrow_bytes() + fmt_time(
                e_ms + offset_ms,
            ));
        }
    }
    CueLine::Keep(out)
}

/// Deletion is monotone in the offset: once an offset deletes a cue, every
/// smaller offset deletes it as well. The window does not move with the
/// offset, so a cue can only cross from kept to deleted as the offset
/// decreases, never back.
pub proof fn lemma_deletion_monotonic(
    line: Seq<u8>,
    off_low: int,
    off_high: int,
    start_bound: Option<i64>,
    stop_bound: Option<i64>,
)
    requires
        off_low <= off_high,
        spec_process_line(line, off_high, start_bound, stop_bound) is None,
    ensures
        spec_process_line(line, off_low, start_bound, stop_bound) is None,
{
}

/// A cue entirely outside the window is handed back unchanged, whatever the
/// offset.
pub proof fn lemma_window_exclusion(
    line: Seq<u8>,
    off: int,
    start_bound: Option<i64>,
    stop_bound: Option<i64>,
)
    requires
        out_of_window(
            timestamp_ms(start_field(line)),
            timestamp_ms(end_field(line)),
            start_bound,
            stop_bound,
        ),
    ensures
        spec_process_line(line, off, start_bound, stop_bound) == Some(line),
{
}

} // verus!
