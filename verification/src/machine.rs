//! The cue-block skip state machine and the whole-stream transformation.
//!
//! Lines are processed one at a time. In `Normal` state a timing line is
//! normalized to dot separators, run through the offset policy, and emitted
//! in the target format's separator convention — unless the policy deletes
//! the cue, which emits nothing and enters `Skipping`. While `Skipping`,
//! every line is discarded; the first blank line ends the skip (it is itself
//! consumed, being the separator of the deleted cue).

use vstd::prelude::*;

use crate::formats::spec_emit;
use crate::formats::spec_to_dots;
use crate::formats::to_commas;
use crate::formats::to_dots;
use crate::formats::Format;
use crate::matcher::end_field;
use crate::matcher::is_timing_line;
use crate::matcher::spec_is_timing_line;
use crate::matcher::start_field;
use crate::policy::process_line;
use crate::policy::spec_process_line;
use crate::policy::CueLine;
use crate::policy::arrow_bytes;
use crate::policy::out_of_window;
use crate::policy::OFFSET_LIMIT;
use crate::time_codec::fmt_time;
use crate::time_codec::is_timestamp;
use crate::time_codec::is_valid_timestamp;
use crate::time_codec::lemma_format_parse_roundtrip;
use crate::time_codec::timestamp_ms;

verus! {

/// Whether the lines of the current cue are being suppressed.
#[derive(Clone, Copy, Debug, PartialEq, Eq, Structural)]
pub enum SkipState {
    Normal,
    Skipping,
}

/// Commas of a timing line turned to dots: a timing line stays one, its
/// fields map pointwise, and their values and validity are unchanged.
pub proof fn lemma_to_dots_timing(line: Seq<u8>)
    requires
        spec_is_timing_line(line),
    ensures
        spec_is_timing_line(spec_to_dots(line)),
        start_field(spec_to_dots(line)) == spec_to_dots(start_field(line)),
        end_field(spec_to_dots(line)) == spec_to_dots(end_field(line)),
        timestamp_ms(start_field(spec_to_dots(line))) == timestamp_ms(start_field(line)),
        timestamp_ms(end_field(spec_to_dots(line))) == timestamp_ms(end_field(line)),
{
    let norm = spec_to_dots(line);
    let n = line.len() as int;
    assert(norm.len() == n);
    assert(forall|i: int|
        0 <= i < n ==> norm[i] == (if line[i] == 44 {
            46u8
        } else {
            line[i]
        }));
    assert(start_field(norm) =~= spec_to_dots(start_field(line)));
    assert(end_field(norm) =~= spec_to_dots(end_field(line)));
    lemma_to_dots_timestamp(start_field(line));
    lemma_to_dots_timestamp(end_field(line));
}

/// Commas turned to dots on a single timestamp field.
pub proof fn lemma_to_dots_timestamp(f: Seq<u8>)
    requires
        is_timestamp(f),
    ensures
        is_timestamp(spec_to_dots(f)),
        spec_to_dots(f)[8] == 46,
        timestamp_ms(spec_to_dots(f)) == timestamp_ms(f),
        is_valid_timestamp(f) ==> is_valid_timestamp(spec_to_dots(f)),
{
    let g = spec_to_dots(f);
    assert(forall|i: int|
        0 <= i < 12 ==> g[i] == (if f[i] == 44 {
            46u8
        } else {
            f[i]
        }));
}

/// One step of the machine: the successor state, the emitted line if any,
/// and whether this step deleted a cue.
pub open spec fn spec_step(
    st: SkipState,
    line: Seq<u8>,
    off: int,
    start_bound: Option<i64>,
    stop_bound: Option<i64>,
    target: Format,
) -> (SkipState, Option<Seq<u8>>, bool) {
    if st is Skipping {
        if line.len() == 0 {
            (SkipState::Normal, None, false)
        } else {
            (SkipState::Skipping, None, false)
        }
    } else if spec_is_timing_line(line) {
        match spec_process_line(spec_to_dots(line), off, start_bound, stop_bound) {
            None => (SkipState::Skipping, None, true),
            Some(l) => (SkipState::Normal, Some(spec_emit(l, target)), false),
        }
    } else {
        (SkipState::Normal, Some(line), false)
    }
}

/// The machine run over a whole stream of lines: final state, emitted
/// lines, and the number of deleted cues.
pub open spec fn spec_run(
    lines: Seq<Seq<u8>>,
    off: int,
    start_bound: Option<i64>,
    stop_bound: Option<i64>,
    target: Format,
) -> (SkipState, Seq<Seq<u8>>, int)
    decreases lines.len(),
{
    if lines.len() == 0 {
        (SkipState::Normal, Seq::empty(), 0)
    } else {
        let prev = spec_run(lines.drop_last(), off, start_bound, stop_bound, target);
        let st = spec_step(prev.0, lines.last(), off, start_bound, stop_bound, target);
        (
            st.0,
            match st.1 {
                Some(l) => prev.1.push(l),
                None => prev.1,
            },
            prev.2 + if st.2 {
                1int
            } else {
                0int
            },
        )
    }
}

/// Processes one line in the given state.
pub fn step(
    state: SkipState,
    line: &Vec<u8>,
    offset_ms: i64,
    start_bound: Option<i64>,
    stop_bound: Option<i64>,
    target: Format,
) -> (r: (SkipState, Option<Vec<u8>>, bool))
    requires
        -OFFSET_LIMIT <= offset_ms <= OFFSET_LIMIT,
    ensures
        ({
            let s = spec_step(state, line@, offset_ms as int, start_bound, stop_bound, target);
            &&& r.0 == s.0
            &&& r.2 == s.2
            &&& match r.1 {
                Some(v) => s.1 == Some(v@),
                None => s.1 is None,
            }
        }),
{
    match state {
        SkipState::Skipping => {
            if line.len() == 0 {
                (SkipState::Normal, None, false)
            } else {
                (SkipState::Skipping, None, false)
            }
        },
        SkipState::Normal => {
            if is_timing_line(line) {
                let norm = to_dots(line);
                proof {
                    lemma_to_dots_timing(line@);
                }
                match process_line(&norm, offset_ms, start_bound, stop_bound) {
                    CueLine::Delete => (SkipState::Skipping, None, true),
                    CueLine::Keep(kept) => {
                        let emitted = match target {
                            Format::Srt => to_commas(&kept),
                            Format::Vtt => kept,
                        };
                        (SkipState::Normal, Some(emitted), false)
                    },
                }
            } else {
                let mut copy: Vec<u8> = Vec::new();
                copy.extend_from_slice(line.as_slice());
                assert(copy@ =~= line@);
                (SkipState::Normal, Some(copy), false)
            }
        },
    }
}

/// Transforms a whole subtitle file, given as its lines without line
/// terminators. Returns the lines to emit and the number of deleted cues.
pub fn transform(
    lines: &Vec<Vec<u8>>,
    offset_ms: i64,
    start_bound: Option<i64>,
    stop_bound: Option<i64>,
    target: Format,
) -> (r: (Vec<Vec<u8>>, usize))
    requires
        -OFFSET_LIMIT <= offset_ms <= OFFSET_LIMIT,
    ensures
        ({
            let run = spec_run(
                lines.deep_view(),
                offset_ms as int,
                start_bound,
                stop_bound,
                target,
            );
            r.0.deep_view() == run.1 && r.1 == run.2
        }),
{
    let ghost all = lines.deep_view();
    let mut out: Vec<Vec<u8>> = Vec::new();
    let mut deleted: usize = 0;
    let mut state = SkipState::Normal;
    let mut i: usize = 0;
    while i < lines.len()
        invariant
            i <= lines.len(),
            all == lines.deep_view(),
            all.len() == lines@.len(),
            -OFFSET_LIMIT <= offset_ms <= OFFSET_LIMIT,
            deleted <= i,
            ({
                let run = spec_run(
                    all.take(i as int),
                    offset_ms as int,
                    start_bound,
                    stop_bound,
                    target,
                );
                state == run.0 && out.deep_view() == run.1 && deleted == run.2
            }),
        decreases lines.len() - i,
    {
        let ghost out_before = out.deep_view();
        let (next, emit, del) = step(state, &lines[i], offset_ms, start_bound, stop_bound, target);
        state = next;
        match emit {
            Some(e) => {
                let ghost ev = e@;
                out.push(e);
                assert(out.deep_view() =~~= out_before.push(ev));
            },
            None => {},
        }
        if del {
            deleted = deleted + 1;
        }
        i = i + 1;
        proof {
            assert(all.take(i as int).drop_last() =~= all.take(i - 1));
            assert(all.take(i as int).last() == all[i - 1]);
            assert(all[i - 1] =~= lines@[i - 1]@);
        }
    }
    proof {
        assert(all.take(all.len() as int) =~= all);
    }
    (out, deleted)
}

/// A line of well-formed subtitle input: if it is a timing line at all, the
/// timing shape is the whole line and minutes and seconds lie below 60.
pub open spec fn well_formed_line(line: Seq<u8>) -> bool {
    spec_is_timing_line(line) ==> {
        &&& line.len() == 29
        &&& is_valid_timestamp(start_field(line))
        &&& is_valid_timestamp(end_field(line))
    }
}

/// A line as the transformation emits it when the times themselves do not
/// move: timing lines keep their bytes up to the separator convention of
/// the target format, all other lines stay untouched.
pub open spec fn sep_normalized_line(line: Seq<u8>, target: Format) -> Seq<u8> {
    if spec_is_timing_line(line) {
        spec_emit(spec_to_dots(line), target)
    } else {
        line
    }
}

/// With offset zero and no window, one step in `Normal` state emits the
/// line unchanged but for separator normalization, stays in `Normal`, and
/// deletes nothing.
#[verifier::rlimit(50)]
pub proof fn lemma_step_identity(line: Seq<u8>, target: Format)
    requires
        well_formed_line(line),
    ensures
        spec_step(SkipState::Normal, line, 0, None, None, target) == (
            SkipState::Normal,
            Some(sep_normalized_line(line, target)),
            false,
        ),
{
    if spec_is_timing_line(line) {
        let norm = spec_to_dots(line);
        lemma_to_dots_timing(line);
        lemma_to_dots_timestamp(start_field(line));
        lemma_to_dots_timestamp(end_field(line));
        let s_ms = timestamp_ms(start_field(norm));
        let e_ms = timestamp_ms(end_field(norm));
        assert(!out_of_window(s_ms, e_ms, None, None));
        assert(s_ms >= 0 && e_ms >= 0);
        lemma_format_parse_roundtrip(start_field(norm));
        lemma_format_parse_roundtrip(end_field(norm));
        assert(fmt_time(s_ms) == start_field(norm));
        assert(fmt_time(e_ms) == end_field(norm));
        assert(norm.len() == 29);
        assert(start_field(norm) + arrow_bytes() + end_field(norm) =~= norm);
        assert(spec_process_line(norm, 0, None, None) == Some(norm));
    }
}

/// Window exclusion, seen from the machine: a timing line whose cue lies
/// entirely outside the window steps identically under every offset — the
/// line is emitted with only its separators normalized to the target
/// convention, the state stays `Normal`, and nothing is deleted.
pub proof fn lemma_window_exclusion_step(
    line: Seq<u8>,
    off_a: int,
    off_b: int,
    start_bound: Option<i64>,
    stop_bound: Option<i64>,
    target: Format,
)
    requires
        spec_is_timing_line(line),
        out_of_window(
            timestamp_ms(start_field(spec_to_dots(line))),
            timestamp_ms(end_field(spec_to_dots(line))),
            start_bound,
            stop_bound,
        ),
    ensures
        spec_step(SkipState::Normal, line, off_a, start_bound, stop_bound, target) == (
            SkipState::Normal,
            Some(spec_emit(spec_to_dots(line), target)),
            false,
        ),
        spec_step(SkipState::Normal, line, off_a, start_bound, stop_bound, target) == spec_step(
            SkipState::Normal,
            line,
            off_b,
            start_bound,
            stop_bound,
            target,
        ),
{
    crate::policy::lemma_window_exclusion(spec_to_dots(line), off_a, start_bound, stop_bound);
    crate::policy::lemma_window_exclusion(spec_to_dots(line), off_b, start_bound, stop_bound);
}

/// Round-trip identity: with offset zero and no window, a well-formed
/// stream is reproduced line for line — timing lines only have their
/// decimal separators normalized to the target convention — and no cue is
/// deleted.
pub proof fn lemma_round_trip(lines: Seq<Seq<u8>>, target: Format)
    requires
        forall|i: int| 0 <= i < lines.len() ==> well_formed_line(#[trigger] lines[i]),
    ensures
        ({
            let run = spec_run(lines, 0, None, None, target);
            &&& run.0 is Normal
            &&& run.2 == 0
            &&& run.1.len() == lines.len()
            &&& forall|i: int|
                0 <= i < lines.len() ==> #[trigger] run.1[i] == sep_normalized_line(
                    lines[i],
                    target,
                )
        }),
    decreases lines.len(),
{
    if lines.len() > 0 {
        lemma_round_trip(lines.drop_last(), target);
        lemma_step_identity(lines.last(), target);
        let prev = spec_run(lines.drop_last(), 0, None, None, target);
        let run = spec_run(lines, 0, None, None, target);
        assert(run.1 == prev.1.push(sep_normalized_line(lines.last(), target)));
        assert(forall|i: int|
            0 <= i < lines.len() - 1 ==> #[trigger] run.1[i] == prev.1[i] && lines.drop_last()[i]
                == lines[i]);
        assert(run.1[lines.len() - 1] == sep_normalized_line(lines[lines.len() - 1], target));
    }
}

} // verus!
