use submod::errors::SubError;
use submod::formats::format_of_name;
use submod::formats::Format;
use submod::machine::transform;
use submod::matcher::extract_endpoints;
use submod::matcher::is_timing_line;
use submod::policy::process_line;
use submod::policy::CueLine;
use submod::time_codec::format_time;
use submod::time_codec::get_secs;
use submod::time_codec::parse_time;

fn line(s: &str) -> Vec<u8> {
    s.as_bytes().to_vec()
}

fn lines(ls: &[&str]) -> Vec<Vec<u8>> {
    ls.iter().map(|s| line(s)).collect()
}

fn text(ls: &[&str]) -> Vec<Vec<u8>> {
    lines(ls)
}

#[test]
fn format_time_zero() {
    assert_eq!(format_time(0), line("00:00:00.000"));
}

#[test]
fn format_time_exact() {
    assert_eq!(format_time(3_723_456), line("01:02:03.456"));
    assert_eq!(format_time(59_999), line("00:00:59.999"));
    assert_eq!(format_time(600_000), line("00:10:00.000"));
}

#[test]
fn format_time_hours_grow_left() {
    assert_eq!(format_time(360_000_000), line("100:00:00.000"));
    assert_eq!(format_time(362_439_999), line("100:40:39.999"));
}

#[test]
fn parse_time_dot_form() {
    assert_eq!(parse_time(&line("00:01:02.345")), Ok(62_345));
}

#[test]
fn parse_time_comma_form() {
    assert_eq!(parse_time(&line("01:00:00,001")), Ok(3_600_001));
}

#[test]
fn parse_time_malformed() {
    assert_eq!(
        parse_time(&line("0:01:02.345")),
        Err(SubError::MalformedTimeField)
    );
    assert_eq!(
        parse_time(&line("00:01:02.34")),
        Err(SubError::MalformedTimeField)
    );
    assert_eq!(
        parse_time(&line("00-01-02.345")),
        Err(SubError::MalformedTimeField)
    );
    assert_eq!(parse_time(&line("")), Err(SubError::MalformedTimeField));
}

#[test]
fn get_secs_full_clock() {
    assert_eq!(get_secs(&line("01:02:03.500")), Ok(3_723_500));
}

#[test]
fn get_secs_short_forms() {
    assert_eq!(get_secs(&line("90")), Ok(90_000));
    assert_eq!(get_secs(&line("1:30")), Ok(90_000));
    assert_eq!(get_secs(&line("0:0:1")), Ok(1_000));
}

#[test]
fn get_secs_fraction_truncated_past_milliseconds() {
    assert_eq!(get_secs(&line("0.0015")), Ok(1));
    assert_eq!(get_secs(&line("1.2345")), Ok(1_234));
}

#[test]
fn get_secs_extra_groups_ignored() {
    assert_eq!(get_secs(&line("x:1:2:3")), Ok(3_723_000));
}

#[test]
fn get_secs_malformed() {
    assert_eq!(get_secs(&line("")), Err(SubError::MalformedTimeField));
    assert_eq!(get_secs(&line("abc")), Err(SubError::MalformedTimeField));
    assert_eq!(get_secs(&line("1e5")), Err(SubError::MalformedTimeField));
    assert_eq!(get_secs(&line("00:aa:01")), Err(SubError::MalformedTimeField));
    assert_eq!(
        get_secs(&line("1234567890:00:00")),
        Err(SubError::MalformedTimeField)
    );
}

#[test]
fn timing_line_shapes() {
    assert!(is_timing_line(&line("00:00:10,000 --> 00:00:12,000")));
    assert!(is_timing_line(&line("00:00:10.000 --> 00:00:12.000")));
    assert!(is_timing_line(&line("12 00:00:10,000 --> 00:00:12,000")));
    assert!(!is_timing_line(&line("00:00:10,000 --> 00:00:12,000 ")));
    assert!(!is_timing_line(&line("00:00:10,000 -> 00:00:12,000")));
    assert!(!is_timing_line(&line("hello world")));
    assert!(!is_timing_line(&line("")));
}

#[test]
fn endpoints_of_matched_line() {
    let (s, e) = extract_endpoints(&line("00:00:10,000 --> 00:00:12,500"));
    assert_eq!(s, line("00:00:10,000"));
    assert_eq!(e, line("00:00:12,500"));
}

#[test]
fn process_line_shifts_both_endpoints() {
    let r = process_line(&line("00:00:10.000 --> 00:00:12.000"), 5_000, None, None);
    match r {
        CueLine::Keep(v) => assert_eq!(v, line("00:00:15.000 --> 00:00:17.000")),
        CueLine::Delete => panic!("cue should survive"),
    }
}

#[test]
fn process_line_deletes_when_end_goes_negative() {
    let r = process_line(&line("00:00:10.000 --> 00:00:12.000"), -13_000, None, None);
    assert!(matches!(r, CueLine::Delete));
}

#[test]
fn process_line_clamps_negative_start() {
    let r = process_line(&line("00:00:10.000 --> 00:00:20.000"), -15_000, None, None);
    match r {
        CueLine::Keep(v) => assert_eq!(v, line("00:00:00.000 --> 00:00:05.000")),
        CueLine::Delete => panic!("cue should survive clamped"),
    }
}

#[test]
fn process_line_end_exactly_zero_is_kept() {
    let r = process_line(&line("00:00:08.000 --> 00:00:10.000"), -10_000, None, None);
    match r {
        CueLine::Keep(v) => assert_eq!(v, line("00:00:00.000 --> 00:00:00.000")),
        CueLine::Delete => panic!("a cue ending exactly at zero is kept"),
    }
}

#[test]
fn process_line_start_exactly_zero_is_not_clamped() {
    let r = process_line(&line("00:00:10.000 --> 00:00:12.000"), -10_000, None, None);
    match r {
        CueLine::Keep(v) => assert_eq!(v, line("00:00:00.000 --> 00:00:02.000")),
        CueLine::Delete => panic!("cue should survive"),
    }
}

#[test]
fn process_line_out_of_window_before_start_bound() {
    let input = line("00:00:10.000 --> 00:00:12.000");
    let r = process_line(&input, 1_000_000, Some(30_000), None);
    match r {
        CueLine::Keep(v) => assert_eq!(v, input),
        CueLine::Delete => panic!("out-of-window cue is untouched"),
    }
}

#[test]
fn process_line_out_of_window_after_stop_bound() {
    let input = line("00:10:00.000 --> 00:10:02.000");
    let r = process_line(&input, -1_000_000_000, None, Some(60_000));
    match r {
        CueLine::Keep(v) => assert_eq!(v, input),
        CueLine::Delete => panic!("out-of-window cue is untouched"),
    }
}

#[test]
fn scenario_deleted_cue_with_text_lines() {
    let input = text(&[
        "1",
        "00:00:10,000 --> 00:00:12,000",
        "Hello",
        "",
        "2",
        "00:00:20,000 --> 00:00:22,000",
        "World",
        "",
    ]);
    let (out, deleted) = transform(&input, -15_000, None, None, Format::Srt);
    assert_eq!(deleted, 1);
    assert_eq!(
        out,
        text(&["1", "2", "00:00:05,000 --> 00:00:07,000", "World", ""])
    );
}

#[test]
fn scenario_single_line_deletion_count() {
    let input = text(&["00:00:10,000 --> 00:00:12,000"]);
    let (out, deleted) = transform(&input, -15_000, None, None, Format::Srt);
    assert_eq!(deleted, 1);
    assert_eq!(out, text(&[] as &[&str]));
}

#[test]
fn scenario_clamped_cue_survives() {
    let input = text(&["00:00:10.000 --> 00:00:20.000"]);
    let (out, deleted) = transform(&input, -15_000, None, None, Format::Vtt);
    assert_eq!(deleted, 0);
    assert_eq!(out, text(&["00:00:00.000 --> 00:00:05.000"]));
}

#[test]
fn scenario_srt_to_vtt_conversion() {
    let input = text(&["00:01:00,000 --> 00:01:02,000"]);
    let (out, deleted) = transform(&input, 5_000, None, None, Format::Vtt);
    assert_eq!(deleted, 0);
    assert_eq!(out, text(&["00:01:05.000 --> 00:01:07.000"]));
}

#[test]
fn round_trip_offset_zero_srt() {
    let input = text(&[
        "1",
        "00:00:10,000 --> 00:00:12,000",
        "Hello there",
        "",
        "2",
        "00:01:00,500 --> 00:01:02,250",
        "Second cue",
        "",
    ]);
    let (out, deleted) = transform(&input, 0, None, None, Format::Srt);
    assert_eq!(deleted, 0);
    assert_eq!(out, input);
}

#[test]
fn round_trip_offset_zero_vtt() {
    let input = text(&[
        "WEBVTT",
        "",
        "00:00:10.000 --> 00:00:12.000",
        "Hello there",
        "",
    ]);
    let (out, deleted) = transform(&input, 0, None, None, Format::Vtt);
    assert_eq!(deleted, 0);
    assert_eq!(out, input);
}

#[test]
fn round_trip_normalizes_separators_only() {
    let input = text(&["00:00:10,000 --> 00:00:12,000"]);
    let (out, deleted) = transform(&input, 0, None, None, Format::Vtt);
    assert_eq!(deleted, 0);
    assert_eq!(out, text(&["00:00:10.000 --> 00:00:12.000"]));
}

#[test]
fn deletion_is_monotone_in_the_offset() {
    let cue = text(&["00:00:10,000 --> 00:00:12,000"]);
    let offsets = [-11_000i64, -12_000, -12_001, -13_000, -100_000];
    let mut seen_deleted = false;
    for off in offsets {
        let (_, deleted) = transform(&cue, off, None, None, Format::Srt);
        if seen_deleted {
            assert_eq!(deleted, 1, "a smaller offset must keep the cue deleted");
        }
        if deleted == 1 {
            seen_deleted = true;
        }
    }
    assert!(seen_deleted);
}

#[test]
fn window_exclusion_ignores_offset() {
    let input = text(&["00:00:10,000 --> 00:00:12,000", "late text", ""]);
    for off in [-1_000_000_000i64, -15_000, 0, 999_999_999] {
        let (out, deleted) = transform(&input, off, Some(30_000), None, Format::Srt);
        assert_eq!(deleted, 0);
        assert_eq!(out, input);
    }
}

#[test]
fn window_start_bound_is_inclusive_for_cue_end() {
    // the cue's end equals the start bound, so the cue is in the window
    let input = text(&["00:00:10,000 --> 00:00:12,000"]);
    let (out, _) = transform(&input, 1_000, Some(12_000), None, Format::Srt);
    assert_eq!(out, text(&["00:00:11,000 --> 00:00:13,000"]));
}

#[test]
fn timing_line_while_skipping_is_discarded() {
    let input = text(&[
        "00:00:01,000 --> 00:00:02,000",
        "00:00:10,000 --> 00:00:11,000",
        "",
        "x",
    ]);
    let (out, deleted) = transform(&input, -5_000, None, None, Format::Srt);
    assert_eq!(deleted, 1);
    assert_eq!(out, text(&["x"]));
}

#[test]
fn stream_ending_while_skipping_drops_the_tail() {
    let input = text(&["00:00:01,000 --> 00:00:02,000", "gone", "also gone"]);
    let (out, deleted) = transform(&input, -5_000, None, None, Format::Srt);
    assert_eq!(deleted, 1);
    assert_eq!(out, text(&[] as &[&str]));
}

#[test]
fn prefixed_timing_line_is_rebuilt_without_prefix() {
    let input = text(&["12 00:00:10,000 --> 00:00:12,000"]);
    let (out, _) = transform(&input, 1_000, None, None, Format::Srt);
    assert_eq!(out, text(&["00:00:11,000 --> 00:00:13,000"]));
}

#[test]
fn non_timing_lines_pass_through_verbatim() {
    let input = text(&["NOTE a comment, with commas.", "", "plain text"]);
    let (out, deleted) = transform(&input, -100_000, None, None, Format::Srt);
    assert_eq!(deleted, 0);
    assert_eq!(out, input);
}

#[test]
fn format_of_name_recognizes_extensions() {
    assert_eq!(format_of_name(&line("movie.srt")), Ok(Format::Srt));
    assert_eq!(format_of_name(&line("movie.vtt")), Ok(Format::Vtt));
    assert_eq!(
        format_of_name(&line("movie.txt")),
        Err(SubError::UnsupportedTargetFormat)
    );
    assert_eq!(
        format_of_name(&line("srt")),
        Err(SubError::UnsupportedTargetFormat)
    );
}
