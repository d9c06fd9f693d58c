//! The time codec: parses a fixed-shape `HH:MM:SS.mmm` (or `HH:MM:SS,mmm`)
//! field into integer milliseconds, and formats a non-negative number of
//! milliseconds back into that shape. A negative time has no rendering: the
//! offset policy treats it as the deletion sentinel instead.

use vstd::prelude::*;

use crate::digits::all_digits;
use crate::digits::dec_digits;
use crate::digits::digit_run_end;
use crate::digits::digits_val;
use crate::digits::digits_value;
use crate::digits::frac_ms;
use crate::digits::lemma_digit_run_end;
use crate::digits::lemma_digit_run_end_is;
use crate::digits::lemma_digits_val_bound;
use crate::digits::lemma_frac_ms_bound;
use crate::digits::lemma_pow10_monotone;
use crate::digits::pow10;
use crate::digits::scan_digits;
use crate::digits::digit_byte;
use crate::digits::digit_val;
use crate::digits::is_ascii_digit;
use crate::digits::lemma_dec_digits;
use crate::digits::push_u64_decimal;
use crate::errors::SubError;

verus! {

/// A strict bound on the milliseconds any shaped timestamp can denote
/// (digit pairs up to `99` in every group).
pub const TIMESTAMP_MS_BOUND: i64 = 363_000_000;

/// The twelve-byte timestamp shape: two digits of hours, two of minutes,
/// two of seconds and three of milliseconds, with `:` group separators and
/// either decimal separator.
pub open spec fn is_timestamp(s: Seq<u8>) -> bool {
    &&& s.len() == 12
    &&& is_ascii_digit(s[0])
    &&& is_ascii_digit(s[1])
    &&& s[2] == 58
    &&& is_ascii_digit(s[3])
    &&& is_ascii_digit(s[4])
    &&& s[5] == 58
    &&& is_ascii_digit(s[6])
    &&& is_ascii_digit(s[7])
    &&& (s[8] == 46 || s[8] == 44)
    &&& is_ascii_digit(s[9])
    &&& is_ascii_digit(s[10])
    &&& is_ascii_digit(s[11])
}

/// A shaped timestamp whose minutes and seconds lie below 60, as every
/// timestamp of a well-formed subtitle file does.
pub open spec fn is_valid_timestamp(s: Seq<u8>) -> bool {
    is_timestamp(s) && digit_val(s[3]) <= 5 && digit_val(s[6]) <= 5
}

/// The milliseconds a shaped timestamp denotes.
pub open spec fn timestamp_ms(s: Seq<u8>) -> int {
    ((digit_val(s[0]) * 10 + digit_val(s[1])) * 3600 + (digit_val(s[3]) * 10 + digit_val(s[4]))
        * 60 + digit_val(s[6]) * 10 + digit_val(s[7])) * 1000 + digit_val(s[9]) * 100 + digit_val(
        s[10],
    ) * 10 + digit_val(s[11])
}

/// Two decimal digits of a value in `0..100`.
pub open spec fn two_digit_bytes(n: int) -> Seq<u8> {
    seq![digit_byte(n / 10), digit_byte(n % 10)]
}

/// Three decimal digits of a value in `0..1000`.
pub open spec fn three_digit_bytes(n: int) -> Seq<u8> {
    seq![digit_byte(n / 100), digit_byte((n / 10) % 10), digit_byte(n % 10)]
}

/// Hours, zero-padded to two digits, growing to the left past `99`.
pub open spec fn hours_bytes(h: int) -> Seq<u8> {
    if h < 10 {
        seq![48u8, digit_byte(h)]
    } else {
        dec_digits(h as nat)
    }
}

/// The canonical dot-form rendering of a non-negative time in milliseconds.
pub open spec fn fmt_time(ms: int) -> Seq<u8> {
    hours_bytes(ms / 3600000) + seq![58u8] + two_digit_bytes((ms / 60000) % 60) + seq![58u8]
        + two_digit_bytes((ms / 1000) % 60) + seq![46u8] + three_digit_bytes(ms % 1000)
}

/// Formats a non-negative time as `HH:MM:SS.mmm`, hours unbounded to the
/// left. A negative time is not a timestamp: callers treat it as deleted.
pub fn format_time(ms: i64) -> (r: Vec<u8>)
    requires
        0 <= ms,
    ensures
        r@ == fmt_time(ms as int),
{
    let m = ms as u64;
    let h = m / 3_600_000;
    let mins = (m / 60_000) % 60;
    let secs = (m / 1_000) % 60;
    let frac = m % 1_000;
    let mut out: Vec<u8> = Vec::new();
    if h < 10 {
        out.push(48);
        out.push(48 + h as u8);
        assert(out@ =~= hours_bytes(m as int / 3600000));
    } else {
        push_u64_decimal(&mut out, h);
        assert(out@ =~= hours_bytes(m as int / 3600000));
    }
    out.push(58);
    out.push(48 + (mins / 10) as u8);
    out.push(48 + (mins % 10) as u8);
    out.push(58);
    out.push(48 + (secs / 10) as u8);
    out.push(48 + (secs % 10) as u8);
    out.push(46);
    out.push(48 + (frac / 100) as u8);
    out.push(48 + ((frac / 10) % 10) as u8);
    out.push(48 + (frac % 10) as u8);
    assert(out@ =~= fmt_time(ms as int));
    out
}

/// Parses a twelve-byte timestamp field: `Ok` with its milliseconds exactly
/// on the shape above, `MalformedTimeField` on everything else.
pub fn parse_time(field: &Vec<u8>) -> (r: Result<i64, SubError>)
    ensures
        is_timestamp(field@) ==> r == Ok::<i64, SubError>(timestamp_ms(field@) as i64),
        !is_timestamp(field@) ==> r == Err::<i64, SubError>(SubError::MalformedTimeField),
{
    if field.len() != 12 {
        return Err(SubError::MalformedTimeField);
    }
    let ok = is_digit_at(field, 0) && is_digit_at(field, 1) && field[2] == 58 && is_digit_at(
        field,
        3,
    ) && is_digit_at(field, 4) && field[5] == 58 && is_digit_at(field, 6) && is_digit_at(field, 7)
        && (field[8] == 46 || field[8] == 44) && is_digit_at(field, 9) && is_digit_at(field, 10)
        && is_digit_at(field, 11);
    if !ok {
        return Err(SubError::MalformedTimeField);
    }
    Ok(timestamp_value(field))
}

/// Milliseconds of a field already known to have the timestamp shape.
pub fn timestamp_value(field: &Vec<u8>) -> (r: i64)
    requires
        is_timestamp(field@),
    ensures
        r == timestamp_ms(field@),
        0 <= r < TIMESTAMP_MS_BOUND,
{
    ((digit_at(field, 0) * 10 + digit_at(field, 1)) * 3600 + (digit_at(field, 3) * 10 + digit_at(
        field,
        4,
    )) * 60 + digit_at(field, 6) * 10 + digit_at(field, 7)) * 1000 + digit_at(field, 9) * 100
        + digit_at(field, 10) * 10 + digit_at(field, 11)
}

/// The byte at `i` is an ASCII digit.
fn is_digit_at(field: &Vec<u8>, i: usize) -> (r: bool)
    requires
        i < field@.len(),
    ensures
        r == is_ascii_digit(field@[i as int]),
{
    48 <= field[i] && field[i] <= 57
}

/// Numeric value of the digit byte at `i`.
fn digit_at(field: &Vec<u8>, i: usize) -> (r: i64)
    requires
        i < field@.len(),
        is_ascii_digit(field@[i as int]),
    ensures
        r == digit_val(field@[i as int]),
{
    (field[i] - 48) as i64
}

/// Formatting inverts parsing: a valid dot-form timestamp field is
/// reproduced byte for byte by formatting the milliseconds it denotes.
pub proof fn lemma_format_parse_roundtrip(s: Seq<u8>)
    requires
        is_valid_timestamp(s),
        s[8] == 46,
    ensures
        fmt_time(timestamp_ms(s)) == s,
{
    let d0 = digit_val(s[0]);
    let d1 = digit_val(s[1]);
    let d3 = digit_val(s[3]);
    let d4 = digit_val(s[4]);
    let d6 = digit_val(s[6]);
    let d7 = digit_val(s[7]);
    let d9 = digit_val(s[9]);
    let d10 = digit_val(s[10]);
    let d11 = digit_val(s[11]);
    let h = d0 * 10 + d1;
    let mi = d3 * 10 + d4;
    let sec = d6 * 10 + d7;
    let f = d9 * 100 + d10 * 10 + d11;
    let ts = h * 3600 + mi * 60 + sec;
    let ms = timestamp_ms(s);
    assert(ms == ts * 1000 + f);
    assert(0 <= h <= 99 && 0 <= mi <= 59 && 0 <= sec <= 59 && 0 <= f <= 999);
    assert(ms / 3600000 == h) by (nonlinear_arith)
        requires
            ms == (h * 3600 + mi * 60 + sec) * 1000 + f,
            0 <= h && 0 <= mi <= 59 && 0 <= sec <= 59 && 0 <= f <= 999,
    ;
    assert(ms / 60000 == h * 60 + mi && mi < 60) by (nonlinear_arith)
        requires
            ms == (h * 3600 + mi * 60 + sec) * 1000 + f,
            0 <= h && 0 <= mi <= 59 && 0 <= sec <= 59 && 0 <= f <= 999,
    ;
    assert((h * 60 + mi) % 60 == mi) by (nonlinear_arith)
        requires
            0 <= h && 0 <= mi < 60,
    ;
    assert(ms / 1000 == ts && ms % 1000 == f) by (nonlinear_arith)
        requires
            ms == ts * 1000 + f,
            0 <= ts && 0 <= f <= 999,
    ;
    assert(ts % 60 == sec) by (nonlinear_arith)
        requires
            ts == (h * 60 + mi) * 60 + sec,
            0 <= h * 60 + mi && 0 <= sec < 60,
    ;
    // the digit groups of the rendering
    assert(h / 10 == d0 && h % 10 == d1) by (nonlinear_arith)
        requires
            h == d0 * 10 + d1,
            0 <= d0 <= 9 && 0 <= d1 <= 9,
    ;
    assert(mi / 10 == d3 && mi % 10 == d4) by (nonlinear_arith)
        requires
            mi == d3 * 10 + d4,
            0 <= d3 <= 9 && 0 <= d4 <= 9,
    ;
    assert(sec / 10 == d6 && sec % 10 == d7) by (nonlinear_arith)
        requires
            sec == d6 * 10 + d7,
            0 <= d6 <= 9 && 0 <= d7 <= 9,
    ;
    assert(f / 100 == d9 && (f / 10) % 10 == d10 && f % 10 == d11) by (nonlinear_arith)
        requires
            f == d9 * 100 + d10 * 10 + d11,
            0 <= d9 <= 9 && 0 <= d10 <= 9 && 0 <= d11 <= 9,
    ;
    if d0 == 0 {
        assert(hours_bytes(h) =~= seq![s[0], s[1]]);
    } else {
        assert(h >= 10);
        assert(h / 10 < 10);
        assert(dec_digits(h as nat) =~= dec_digits((h / 10) as nat) + seq![
            digit_byte((h % 10) as int),
        ]);
        assert(dec_digits((h / 10) as nat) =~= seq![digit_byte(d0)]);
        assert(hours_bytes(h) =~= seq![s[0], s[1]]);
    }
    assert(two_digit_bytes(mi) =~= seq![s[3], s[4]]);
    assert(two_digit_bytes(sec) =~= seq![s[6], s[7]]);
    assert(three_digit_bytes(f) =~= seq![s[9], s[10], s[11]]);
    assert(fmt_time(ms) =~= s);
}

/// Index of the last colon of `s`, or `-1` when there is none.
pub open spec fn rfind_colon(s: Seq<u8>) -> int
    decreases s.len(),
{
    if s.len() == 0 {
        -1
    } else if s[s.len() - 1] == 58 {
        s.len() - 1
    } else {
        rfind_colon(s.drop_last())
    }
}

proof fn lemma_rfind_colon_at(s: Seq<u8>, j: int)
    requires
        0 <= j < s.len(),
        s[j] == 58,
        forall|k: int| j < k < s.len() ==> s[k] != 58,
    ensures
        rfind_colon(s) == j,
    decreases s.len(),
{
    if j < s.len() - 1 {
        assert(s.drop_last()[j] == 58);
        lemma_rfind_colon_at(s.drop_last(), j);
    }
}

proof fn lemma_rfind_colon_none(s: Seq<u8>)
    requires
        forall|k: int| 0 <= k < s.len() ==> s[k] != 58,
    ensures
        rfind_colon(s) == -1,
    decreases s.len(),
{
    if s.len() > 0 {
        lemma_rfind_colon_none(s.drop_last());
    }
}

/// Finds the last colon of `s[0..upto]`.
fn rfind_colon_upto(s: &Vec<u8>, upto: usize) -> (r: Option<usize>)
    requires
        upto <= s@.len(),
    ensures
        match r {
            Some(j) => j < upto && j == rfind_colon(s@.take(upto as int)),
            None => rfind_colon(s@.take(upto as int)) == -1,
        },
{
    let mut j = upto;
    while j > 0
        invariant
            j <= upto <= s@.len(),
            forall|k: int| j <= k < upto ==> s@[k] != 58,
        decreases j,
    {
        j = j - 1;
        if s[j] == 58 {
            proof {
                let t = s@.take(upto as int);
                assert(t[j as int] == 58);
                assert(forall|k: int| j < k < t.len() ==> t[k] != 58);
                lemma_rfind_colon_at(t, j as int);
            }
            return Some(j);
        }
    }
    proof {
        let t = s@.take(upto as int);
        assert(forall|k: int| 0 <= k < t.len() ==> t[k] != 58);
        lemma_rfind_colon_none(t);
    }
    None
}

/// One colon-separated group of a clock value, read as milliseconds of its
/// own unit: one to nine integer digits, an optional dot followed by
/// further digits, truncated past millisecond precision. Anything else —
/// an empty group, a sign, letters, more than nine integer digits — does
/// not parse.
pub open spec fn comp_ms(s: Seq<u8>) -> Option<int> {
    let d = digit_run_end(s, 0);
    if d > 0 {
        if d > 9 {
            None
        } else if d == s.len() {
            Some(digits_val(s.take(d)) * 1000)
        } else if s[d] == 46 && digit_run_end(s, d + 1) == s.len() {
            Some(digits_val(s.take(d)) * 1000 + frac_ms(s.skip(d + 1)))
        } else {
            None
        }
    } else if s.len() >= 2 && s[0] == 46 && digit_run_end(s, 1) == s.len() {
        Some(frac_ms(s.skip(1)))
    } else {
        None
    }
}

pub proof fn lemma_comp_ms_bound(s: Seq<u8>)
    ensures
        comp_ms(s) matches Some(v) ==> 0 <= v < 1_000_000_000_000,
{
    let d = digit_run_end(s, 0);
    lemma_digit_run_end(s, 0);
    if comp_ms(s) is Some {
        if d > 0 {
            assert(all_digits(s.take(d)));
            lemma_digits_val_bound(s.take(d), 9);
            lemma_pow10_monotone(d as nat, 9);
            assert(pow10(9) == 1_000_000_000) by {
                assert(pow10(0) == 1);
                assert(pow10(1) == 10);
                assert(pow10(2) == 100);
                assert(pow10(3) == 1000);
                assert(pow10(4) == 10000);
                assert(pow10(5) == 100000);
                assert(pow10(6) == 1000000);
                assert(pow10(7) == 10000000);
                assert(pow10(8) == 100000000);
                assert(pow10(9) == 1000000000);
            }
            if d < s.len() {
                lemma_digit_run_end(s, d + 1);
                assert(all_digits(s.skip(d + 1)));
                lemma_frac_ms_bound(s.skip(d + 1));
            }
        } else {
            lemma_digit_run_end(s, 1);
            assert(all_digits(s.skip(1)));
            lemma_frac_ms_bound(s.skip(1));
        }
    }
}

/// Reads one group of `s[from..to]` as `comp_ms` of that slice.
fn parse_component(s: &Vec<u8>, from: usize, to: usize) -> (r: Option<i64>)
    requires
        from <= to <= s@.len(),
    ensures
        match r {
            Some(v) => comp_ms(s@.subrange(from as int, to as int)) == Some(v as int) && 0 <= v
                < 1_000_000_000_000,
            None => comp_ms(s@.subrange(from as int, to as int)) is None,
        },
{
    let ghost c = s@.subrange(from as int, to as int);
    proof {
        lemma_comp_ms_bound(c);
    }
    let d = scan_digits_within(s, from, to);
    proof {
        assert(forall|j: int| 0 <= j < d - from ==> is_ascii_digit(#[trigger] c[j]));
        if d < to {
            assert(!is_ascii_digit(c[d - from]));
        }
        lemma_digit_run_end_is(c, 0, d - from);
    }
    if d > from {
        if d - from > 9 {
            return None;
        }
        let whole = digits_value(s, from, d);
        if d == to {
            assert(c.take(d - from) =~= s@.subrange(from as int, d as int));
            return Some(whole * 1000);
        }
        if s[d] != 46 {
            return None;
        }
        let e = scan_digits_within(s, d + 1, to);
        proof {
            assert(forall|j: int| d + 1 - from <= j < e - from ==> is_ascii_digit(
                #[trigger] c[j],
            ));
            if e < to {
                assert(!is_ascii_digit(c[e - from]));
            }
            lemma_digit_run_end_is(c, d + 1 - from, e - from);
        }
        if e != to {
            return None;
        }
        let f = frac_value(s, d + 1, to);
        assert(c.take(d - from) =~= s@.subrange(from as int, d as int));
        assert(c.skip(d + 1 - from) =~= s@.subrange(d + 1, to as int));
        Some(whole * 1000 + f)
    } else {
        if to - from >= 2 && s[from] == 46 {
            let e = scan_digits_within(s, from + 1, to);
            proof {
                assert(forall|j: int| 1 <= j < e - from ==> is_ascii_digit(#[trigger] c[j]));
                if e < to {
                    assert(!is_ascii_digit(c[e - from]));
                }
                lemma_digit_run_end_is(c, 1, e - from);
            }
            if e == to {
                let f = frac_value(s, from + 1, to);
                assert(c.skip(1) =~= s@.subrange(from + 1, to as int));
                return Some(f);
            }
        }
        None
    }
}

/// The digit run of the slice `s[from..to]`, as an index into `s`.
fn scan_digits_within(s: &Vec<u8>, from: usize, to: usize) -> (r: usize)
    requires
        from <= to <= s@.len(),
    ensures
        from <= r <= to,
        forall|k: int| from <= k < r ==> is_ascii_digit(#[trigger] s@[k]),
        r < to ==> !is_ascii_digit(s@[r as int]),
{
    let mut i = from;
    while i < to && 48 <= s[i] && s[i] <= 57
        invariant
            from <= i <= to <= s@.len(),
            forall|k: int| from <= k < i ==> is_ascii_digit(#[trigger] s@[k]),
        decreases to - i,
    {
        i = i + 1;
    }
    i
}

/// The milliseconds of the fraction digits `s[from..to]`.
fn frac_value(s: &Vec<u8>, from: usize, to: usize) -> (r: i64)
    requires
        from <= to <= s@.len(),
        forall|k: int| from <= k < to ==> is_ascii_digit(#[trigger] s@[k]),
    ensures
        r == frac_ms(s@.subrange(from as int, to as int)),
        0 <= r < 1000,
{
    let ghost d = s@.subrange(from as int, to as int);
    let n = to - from;
    if n == 0 {
        0
    } else if n == 1 {
        let v = digits_value(s, from, to);
        proof {
            assert(d[0] == s@[from as int]);
            assert(is_ascii_digit(d[0]));
            assert(d.drop_last() =~= Seq::<u8>::empty());
            assert(digits_val(d.drop_last()) == 0);
            assert(d.last() == d[0]);
            assert(digits_val(d) == digits_val(d.drop_last()) * 10 + digit_val(d.last()));
        }
        v * 100
    } else if n == 2 {
        let v = digits_value(s, from, to);
        proof {
            assert(all_digits(d));
            lemma_digits_val_bound(d, 2);
            assert(pow10(2) == 100) by {
                assert(pow10(0) == 1);
                assert(pow10(1) == 10);
            }
        }
        v * 10
    } else {
        let v = digits_value(s, from, from + 3);
        proof {
            assert(d.take(3) =~= s@.subrange(from as int, from + 3));
            assert(all_digits(d.take(3)));
            lemma_digits_val_bound(d.take(3), 3);
            assert(pow10(3) == 1000) by {
                assert(pow10(0) == 1);
                assert(pow10(1) == 10);
                assert(pow10(2) == 100);
            }
        }
        v
    }
}

/// The value of a colon-separated clock string such as `01:02:03.500`, in
/// milliseconds. Only the last three groups count — seconds, then minutes,
/// then hours, right to left — and anything left of a third colon is
/// ignored. `None` when a counted group does not parse.
pub open spec fn spec_get_secs(s: Seq<u8>) -> Option<int> {
    let c1 = rfind_colon(s);
    if c1 == -1 {
        comp_ms(s)
    } else {
        let secs = comp_ms(s.skip(c1 + 1));
        let rest1 = s.take(c1);
        let c2 = rfind_colon(rest1);
        if c2 == -1 {
            match (comp_ms(rest1), secs) {
                (Some(m), Some(a)) => Some(a + 60 * m),
                _ => None,
            }
        } else {
            let mins = comp_ms(rest1.skip(c2 + 1));
            let rest2 = rest1.take(c2);
            let c3 = rfind_colon(rest2);
            let hrs = if c3 == -1 {
                comp_ms(rest2)
            } else {
                comp_ms(rest2.skip(c3 + 1))
            };
            match (secs, mins, hrs) {
                (Some(a), Some(m), Some(h)) => Some(a + 60 * m + 3600 * h),
                _ => None,
            }
        }
    }
}

/// Parses a clock string of up to three colon-separated groups into
/// milliseconds, weighting the groups as seconds, minutes and hours from
/// the right. `MalformedTimeField` exactly when a counted group is not a
/// plain decimal number of at most nine integer digits.
pub fn get_secs(field: &Vec<u8>) -> (r: Result<i64, SubError>)
    ensures
        match spec_get_secs(field@) {
            Some(v) => r == Ok::<i64, SubError>(v as i64) && 0 <= v < 4_000_000_000_000_000,
            None => r == Err::<i64, SubError>(SubError::MalformedTimeField),
        },
{
    let n = field.len();
    let c1 = match rfind_colon_upto(field, n) {
        None => {
            assert(field@.take(n as int) =~= field@);
            assert(field@.subrange(0, n as int) =~= field@);
            return match parse_component(field, 0, n) {
                Some(v) => Ok(v),
                None => Err(SubError::MalformedTimeField),
            };
        },
        Some(j) => j,
    };
    assert(field@.take(n as int) =~= field@);
    assert(rfind_colon(field@) == c1);
    let secs = match parse_component(field, c1 + 1, n) {
        Some(v) => v,
        None => {
            assert(field@.subrange(c1 + 1, n as int) =~= field@.skip(c1 + 1));
            return Err(SubError::MalformedTimeField);
        },
    };
    assert(field@.subrange(c1 + 1, n as int) =~= field@.skip(c1 + 1));
    let ghost rest1 = field@.take(c1 as int);
    let c2 = match rfind_colon_upto(field, c1) {
        None => {
            let m = match parse_component(field, 0, c1) {
                Some(v) => v,
                None => {
                    assert(field@.subrange(0, c1 as int) =~= rest1);
                    return Err(SubError::MalformedTimeField);
                },
            };
            assert(field@.subrange(0, c1 as int) =~= rest1);
            return Ok(secs + 60 * m);
        },
        Some(j) => j,
    };
    let mins = match parse_component(field, c2 + 1, c1) {
        Some(v) => v,
        None => {
            assert(field@.subrange(c2 + 1, c1 as int) =~= rest1.skip(c2 + 1));
            return Err(SubError::MalformedTimeField);
        },
    };
    assert(field@.subrange(c2 + 1, c1 as int) =~= rest1.skip(c2 + 1));
    let ghost rest2 = rest1.take(c2 as int);
    assert(rest2 =~= field@.take(c2 as int));
    let hr_from = match rfind_colon_upto(field, c2) {
        None => 0,
        Some(j) => j + 1,
    };
    let hrs = match parse_component(field, hr_from, c2) {
        Some(v) => v,
        None => {
            proof {
                if hr_from == 0 {
                    assert(field@.subrange(0, c2 as int) =~= rest2);
                } else {
                    assert(field@.subrange(hr_from as int, c2 as int) =~= rest2.skip(
                        hr_from as int,
                    ));
                }
            }
            return Err(SubError::MalformedTimeField);
        },
    };
    proof {
        if hr_from == 0 {
            assert(field@.subrange(0, c2 as int) =~= rest2);
        } else {
            assert(field@.subrange(hr_from as int, c2 as int) =~= rest2.skip(hr_from as int));
        }
    }
    Ok(secs + 60 * mins + 3600 * hrs)
}

/// The general clock parser agrees with the fixed-shape codec: on a
/// twelve-byte timestamp field in dot form it reads exactly the field's
/// milliseconds.
pub proof fn lemma_get_secs_timestamp(s: Seq<u8>)
    requires
        is_timestamp(s),
        s[8] == 46,
    ensures
        spec_get_secs(s) == Some(timestamp_ms(s)),
{
    assert(forall|k: int| 5 < k < 12 ==> s[k] != 58);
    lemma_rfind_colon_at(s, 5);
    // the seconds group "SS.mmm"
    let sec = s.skip(6);
    assert(sec.len() == 6);
    assert(forall|k: int| 0 <= k < 6 ==> sec[k] == s[6 + k]);
    lemma_digit_run_end_is(sec, 0, 2);
    lemma_digit_run_end_is(sec, 3, 6);
    assert(comp_ms(sec) == Some(digits_val(sec.take(2)) * 1000 + frac_ms(sec.skip(3))));
    assert(sec.take(2)[0] == s[6] && sec.take(2)[1] == s[7] && sec.take(2).len() == 2);
    crate::digits::lemma_digits_val_pair(sec.take(2));
    let fr = sec.skip(3);
    assert(fr.len() == 3);
    assert(fr.take(3) =~= fr);
    assert(fr[0] == s[9] && fr[1] == s[10] && fr[2] == s[11]);
    crate::digits::lemma_digits_val_triple(fr);
    assert(frac_ms(fr) == digit_val(s[9]) * 100 + digit_val(s[10]) * 10 + digit_val(s[11]));
    // the minutes group "MM"
    let rest1 = s.take(5);
    assert(forall|k: int| 2 < k < 5 ==> rest1[k] != 58);
    lemma_rfind_colon_at(rest1, 2);
    let mins = rest1.skip(3);
    assert(mins.len() == 2);
    assert(mins[0] == s[3] && mins[1] == s[4]);
    lemma_digit_run_end_is(mins, 0, 2);
    assert(mins.take(2) =~= mins);
    crate::digits::lemma_digits_val_pair(mins);
    assert(comp_ms(mins) == Some((digit_val(s[3]) * 10 + digit_val(s[4])) * 1000));
    // the hours group "HH"
    let rest2 = rest1.take(2);
    assert(rest2.len() == 2);
    assert(rest2[0] == s[0] && rest2[1] == s[1]);
    lemma_rfind_colon_none(rest2);
    lemma_digit_run_end_is(rest2, 0, 2);
    assert(rest2.take(2) =~= rest2);
    crate::digits::lemma_digits_val_pair(rest2);
    assert(comp_ms(rest2) == Some((digit_val(s[0]) * 10 + digit_val(s[1])) * 1000));
}

} // verus!
