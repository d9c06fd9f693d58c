use submod::formats::Format;
use submod::naming::decode_token;
use submod::naming::encode_name;
use submod::validate::is_float;
use submod::validate::is_srt_or_vtt;

fn b(s: &str) -> Vec<u8> {
    s.as_bytes().to_vec()
}

#[test]
fn encode_fresh_name() {
    assert_eq!(encode_name(&b("movie.srt"), 3_500, None), b("{+3.50_Sec}_movie.srt"));
}

#[test]
fn encode_reencoded_name_accumulates() {
    let first = encode_name(&b("movie.srt"), 3_500, None);
    assert_eq!(first, b("{+3.50_Sec}_movie.srt"));
    let second = encode_name(&first, -1_000, None);
    assert_eq!(second, b("{+2.50_Sec}_movie.srt"));
}

#[test]
fn encode_negative_offset() {
    assert_eq!(encode_name(&b("a.vtt"), -750, None), b("{-0.75_Sec}_a.vtt"));
}

#[test]
fn encode_offset_composition() {
    let a = 3_500i64;
    let bb = -1_200i64;
    let chained = encode_name(&encode_name(&b("movie.srt"), a, None), bb, None);
    let once = encode_name(&b("movie.srt"), a + bb, None);
    assert_eq!(chained, once);
}

#[test]
fn encode_composition_from_tokened_name() {
    let name = b("{+10.00_Sec}_movie.srt");
    let chained = encode_name(&encode_name(&name, 2_500, None), -500, None);
    let once = encode_name(&name, 2_000, None);
    assert_eq!(chained, once);
    assert_eq!(once, b("{+12.00_Sec}_movie.srt"));
}

#[test]
fn encode_rounds_to_centiseconds() {
    assert_eq!(encode_name(&b("a.srt"), 3_456, None), b("{+3.46_Sec}_a.srt"));
}

#[test]
fn encode_with_extension_change() {
    assert_eq!(
        encode_name(&b("movie.srt"), 3_500, Some(Format::Vtt)),
        b("{+3.50_Sec}_movie.vtt")
    );
    assert_eq!(
        encode_name(&b("{+1.00_Sec}_movie.vtt"), 500, Some(Format::Srt)),
        b("{+1.50_Sec}_movie.srt")
    );
}

#[test]
fn decode_reads_positive_token() {
    assert_eq!(decode_token(&b("{+3.50_Sec}_movie.srt")), Some((3_500, 12)));
}

#[test]
fn decode_reads_negative_token() {
    assert_eq!(decode_token(&b("{-0.75_Sec}_a.vtt")), Some((-750, 12)));
}

#[test]
fn decode_truncates_long_fractions() {
    assert_eq!(decode_token(&b("{+1.2345_Sec}_x")), Some((1_234, 14)));
}

#[test]
fn decode_requires_leading_token() {
    assert_eq!(decode_token(&b("movie.srt")), None);
    assert_eq!(decode_token(&b("movie_{+3.50_Sec}_x.srt")), None);
    assert_eq!(decode_token(&b("{+3.50_Sec}")), None);
    assert_eq!(decode_token(&b("{3.50_Sec}_x")), None);
    assert_eq!(decode_token(&b("{+350_Sec}_x")), None);
    assert_eq!(decode_token(&b("{+.50_Sec}_x")), None);
    assert_eq!(decode_token(&b("")), None);
}

#[test]
fn decode_rejects_oversized_whole_part() {
    assert_eq!(decode_token(&b("{+12345678901234.00_Sec}_x")), None);
}

#[test]
fn srt_or_vtt_accepts_both_extensions() {
    assert!(is_srt_or_vtt("movie.srt".to_string()).is_ok());
    assert!(is_srt_or_vtt("dir.with.dots/movie.vtt".to_string()).is_ok());
}

#[test]
fn srt_or_vtt_rejects_everything_else() {
    assert!(is_srt_or_vtt("movie.txt".to_string()).is_err());
    assert!(is_srt_or_vtt("srt".to_string()).is_err());
    let msg = is_srt_or_vtt("movie.mp4".to_string()).unwrap_err();
    assert!(msg.starts_with("incorrect file extension"));
}

#[test]
fn float_accepts_plain_numbers() {
    assert!(is_float("3.5".to_string()).is_ok());
    assert!(is_float("-15".to_string()).is_ok());
    assert!(is_float("+2".to_string()).is_ok());
    assert!(is_float(".5".to_string()).is_ok());
    assert!(is_float("5.".to_string()).is_ok());
    assert!(is_float("0".to_string()).is_ok());
}

#[test]
fn float_accepts_exponents() {
    assert!(is_float("2e10".to_string()).is_ok());
    assert!(is_float("1.5E-3".to_string()).is_ok());
    assert!(is_float("1.e5".to_string()).is_ok());
    assert!(is_float("-2.5e+7".to_string()).is_ok());
}

#[test]
fn float_accepts_special_words() {
    assert!(is_float("inf".to_string()).is_ok());
    assert!(is_float("-inf".to_string()).is_ok());
    assert!(is_float("Infinity".to_string()).is_ok());
    assert!(is_float("NaN".to_string()).is_ok());
    assert!(is_float("nan".to_string()).is_ok());
}

#[test]
fn float_rejects_non_numbers() {
    assert_eq!(is_float("".to_string()), Err("should be a number".to_string()));
    assert!(is_float("abc".to_string()).is_err());
    assert!(is_float("--5".to_string()).is_err());
    assert!(is_float("1e".to_string()).is_err());
    assert!(is_float("1.5.2".to_string()).is_err());
    assert!(is_float(".".to_string()).is_err());
    assert!(is_float("+".to_string()).is_err());
    assert!(is_float("5 ".to_string()).is_err());
    assert!(is_float("infini".to_string()).is_err());
}

#[test]
fn float_agrees_with_std_parser_on_samples() {
    let samples = [
        "3.5", "-15", "+2e10", ".5", "5.", "1.e5", "inf", "-Infinity", "nan", "", "abc", "--5",
        "1e", "1.5.2", ".", "+", "5 ", " 5", "0x10", "1_000", "infinity", "INF",
    ];
    for s in samples {
        let ours = is_float(s.to_string()).is_ok();
        let std_parse = s.parse::<f64>().is_ok();
        assert_eq!(ours, std_parse, "disagreement on {:?}", s);
    }
}
