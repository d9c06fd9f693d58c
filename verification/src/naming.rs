//! The output-name offset token. A file the engine has produced carries a
//! leading token `{+D.DD_Sec}_` (or `-`) recording the cumulative offset,
//! in seconds with two decimals, that was applied across all runs. Encoding
//! a name strips exactly one such leading token, adds the current run's
//! offset to its value, and writes the sum back, so repeated runs compose
//! instead of drifting.

use vstd::prelude::*;

use crate::digits::all_digits;
use crate::digits::dec_digits;
use crate::digits::digit_run_end;
use crate::digits::digit_val;
use crate::digits::digits_val;
use crate::digits::frac_ms;
use crate::digits::is_ascii_digit;
use crate::digits::lemma_dec_digits;
use crate::digits::lemma_dec_digits_len;
use crate::digits::lemma_digit_run_end_is;
use crate::digits::lemma_digits_val_bound;
use crate::digits::lemma_pow10_values;
use crate::digits::pow10;
use crate::digits::push_u64_decimal;
use crate::digits::scan_digits;
use crate::formats::Format;
use crate::matcher::copy_range;
use crate::policy::OFFSET_LIMIT;
use crate::time_codec::two_digit_bytes;

verus! {

/// The most whole-second digits a token may carry; larger values lie far
/// outside the offsets the engine accepts and do not decode.
pub const TOKEN_WHOLE_DIGITS: usize = 13;

/// A strict bound on the magnitude a decoded token can denote, in
/// milliseconds: thirteen digits of seconds and three of fraction.
pub const TOKEN_MS_BOUND: i64 = 10_000_000_000_001_000;

/// The name starts with an offset token `{±D+.D+_Sec}_` whose whole-second
/// part has at most thirteen digits.
pub open spec fn token_shape(s: Seq<u8>) -> bool {
    &&& s.len() >= 2
    &&& s[0] == 123
    &&& (s[1] == 43 || s[1] == 45)
    &&& ({
        let b = digit_run_end(s, 2);
        &&& b > 2
        &&& b - 2 <= TOKEN_WHOLE_DIGITS
        &&& b < s.len()
        &&& s[b] == 46
        &&& ({
            let c = digit_run_end(s, b + 1);
            &&& c > b + 1
            &&& c + 6 <= s.len()
            &&& s[c] == 95
            &&& s[c + 1] == 83
            &&& s[c + 2] == 101
            &&& s[c + 3] == 99
            &&& s[c + 4] == 125
            &&& s[c + 5] == 95
        })
    })
}

/// Index of the first byte after the token.
pub open spec fn token_end(s: Seq<u8>) -> int {
    digit_run_end(s, digit_run_end(s, 2) + 1) + 6
}

/// The milliseconds a token denotes: whole seconds, fraction digits
/// truncated past millisecond precision, negated under a `-` sign.
pub open spec fn token_ms(s: Seq<u8>) -> int {
    let b = digit_run_end(s, 2);
    let c = digit_run_end(s, b + 1);
    let mag = digits_val(s.subrange(2, b)) * 1000 + frac_ms(s.subrange(b + 1, c));
    if s[1] == 45 {
        -mag
    } else {
        mag
    }
}

pub proof fn lemma_token_ms_bound(s: Seq<u8>)
    requires
        token_shape(s),
    ensures
        -TOKEN_MS_BOUND < token_ms(s) < TOKEN_MS_BOUND,
        2 + 7 <= token_end(s) <= s.len(),
{
    let b = digit_run_end(s, 2);
    let c = digit_run_end(s, b + 1);
    crate::digits::lemma_digit_run_end(s, 2);
    crate::digits::lemma_digit_run_end(s, b + 1);
    assert(all_digits(s.subrange(2, b)));
    lemma_digits_val_bound(s.subrange(2, b), 13);
    lemma_pow10_values();
    assert(all_digits(s.subrange(b + 1, c)));
    crate::digits::lemma_frac_ms_bound(s.subrange(b + 1, c));
}

/// Reads the leading offset token of a file name, if there is one: its
/// milliseconds and the index where the base name begins.
pub fn decode_token(name: &Vec<u8>) -> (r: Option<(i64, usize)>)
    ensures
        token_shape(name@) ==> (r matches Some(p) && p.0 == token_ms(name@) && p.1 == token_end(
            name@,
        ) && -TOKEN_MS_BOUND < p.0 < TOKEN_MS_BOUND && p.1 <= name@.len()),
        !token_shape(name@) ==> r is None,
{
    proof {
        if token_shape(name@) {
            lemma_token_ms_bound(name@);
        }
    }
    let n = name.len();
    if n < 2 || name[0] != 123 || (name[1] != 43 && name[1] != 45) {
        return None;
    }
    let b = scan_digits(name, 2);
    if b == 2 || b - 2 > TOKEN_WHOLE_DIGITS || b == n {
        return None;
    }
    if name[b] != 46 {
        return None;
    }
    let c = scan_digits(name, b + 1);
    if c == b + 1 || n - c < 6 {
        return None;
    }
    if name[c] != 95 || name[c + 1] != 83 || name[c + 2] != 101 || name[c + 3] != 99 || name[c + 4]
        != 125 || name[c + 5] != 95 {
        return None;
    }
    proof {
        crate::digits::lemma_digit_run_end(name@, 2);
        crate::digits::lemma_digit_run_end(name@, b + 1);
    }
    let whole = crate::digits::digits_value(name, 2, b);
    let f = frac_value_of(name, b + 1, c);
    proof {
        lemma_pow10_values();
        crate::digits::lemma_pow10_monotone((b - 2) as nat, 13);
    }
    let mag = whole * 1000 + f;
    let v = if name[1] == 45 {
        -mag
    } else {
        mag
    };
    Some((v, c + 6))
}

/// The milliseconds of the fraction digits `s[from..to]`.
fn frac_value_of(s: &Vec<u8>, from: usize, to: usize) -> (r: i64)
    requires
        from <= to <= s@.len(),
        forall|k: int| from <= k < to ==> is_ascii_digit(#[trigger] s@[k]),
    ensures
        r == frac_ms(s@.subrange(from as int, to as int)),
        0 <= r < 1000,
{
    let ghost d = s@.subrange(from as int, to as int);
    let n = to - from;
    if n == 0 {
        0
    } else if n == 1 {
        let v = crate::digits::digits_value(s, from, to);
        proof {
            assert(d[0] == s@[from as int]);
            assert(is_ascii_digit(d[0]));
            assert(d.drop_last() =~= Seq::<u8>::empty());
            assert(digits_val(d.drop_last()) == 0);
            assert(d.last() == d[0]);
            assert(digits_val(d) == digits_val(d.drop_last()) * 10 + digit_val(d.last()));
        }
        v * 100
    } else if n == 2 {
        let v = crate::digits::digits_value(s, from, to);
        proof {
            assert(all_digits(d));
            lemma_digits_val_bound(d, 2);
            lemma_pow10_values();
        }
        v * 10
    } else {
        let v = crate::digits::digits_value(s, from, from + 3);
        proof {
            assert(d.take(3) =~= s@.subrange(from as int, from + 3));
            assert(all_digits(d.take(3)));
            lemma_digits_val_bound(d.take(3), 3);
            lemma_pow10_values();
        }
        v
    }
}

/// The token that records an offset: sign, whole seconds, exactly two
/// fraction digits (the milliseconds rounded half away from zero to
/// centiseconds), framed as `{±D.DD_Sec}_`.
pub open spec fn fmt_token(ms: int) -> Seq<u8> {
    let mag = if ms < 0 {
        -ms
    } else {
        ms
    };
    let cs = (mag + 5) / 10;
    seq![123u8, if ms < 0 {
        45u8
    } else {
        43u8
    }] + dec_digits((cs / 100) as nat) + seq![46u8] + two_digit_bytes(cs % 100) + seq![
        95u8,
        83u8,
        101u8,
        99u8,
        125u8,
        95u8,
    ]
}

/// Appends the token for `ms` to `out`.
fn push_token(out: &mut Vec<u8>, ms: i64)
    requires
        -100_000_000_000_000_000 <= ms <= 100_000_000_000_000_000,
    ensures
        final(out)@ == old(out)@ + fmt_token(ms as int),
{
    out.push(123);
    out.push(
        if ms < 0 {
            45
        } else {
            43
        },
    );
    let mag = if ms < 0 {
        (-ms) as u64
    } else {
        ms as u64
    };
    let cs = (mag + 5) / 10;
    push_u64_decimal(out, cs / 100);
    out.push(46);
    out.push(48 + ((cs % 100) / 10) as u8);
    out.push(48 + (cs % 10) as u8);
    out.push(95);
    out.push(83);
    out.push(101);
    out.push(99);
    out.push(125);
    out.push(95);
    proof {
        assert((cs % 100) % 10 == cs % 10) by (nonlinear_arith);
        assert(out@ =~= old(out)@ + fmt_token(ms as int));
    }
}

/// The three letters of a format's extension.
pub open spec fn ext_bytes(f: Format) -> Seq<u8> {
    match f {
        Format::Srt => seq![115u8, 114u8, 116u8],
        Format::Vtt => seq![118u8, 116u8, 116u8],
    }
}

/// The encoded output name: the leading token (stripped if present, its
/// value increased by the run's offset; seeded with the run's offset
/// otherwise) followed by the base name, with the final three bytes
/// replaced by the requested extension if a conversion is asked for.
pub open spec fn spec_encode_name(name: Seq<u8>, off: int, convert: Option<Format>) -> Seq<u8> {
    let tokened = if token_shape(name) {
        fmt_token(token_ms(name) + off) + name.skip(token_end(name))
    } else {
        fmt_token(off) + name
    };
    match convert {
        None => tokened,
        Some(f) => tokened.take(tokened.len() - 3) + ext_bytes(f),
    }
}

/// Computes the output file name for a run: updates or seeds the offset
/// token and, when a conversion is requested, swaps the three-letter
/// extension.
pub fn encode_name(name: &Vec<u8>, offset_ms: i64, convert: Option<Format>) -> (r: Vec<u8>)
    requires
        -OFFSET_LIMIT <= offset_ms <= OFFSET_LIMIT,
        convert is Some ==> name@.len() >= 3,
    ensures
        r@ == spec_encode_name(name@, offset_ms as int, convert),
{
    let mut out: Vec<u8> = Vec::new();
    match decode_token(name) {
        Some((v, e)) => {
            let accum = v + offset_ms;
            push_token(&mut out, accum);
            let base = copy_range(name, e, name.len());
            out.extend_from_slice(base.as_slice());
            assert(out@ =~= fmt_token(token_ms(name@) + offset_ms as int) + name@.skip(
                token_end(name@),
            ));
        },
        None => {
            push_token(&mut out, offset_ms);
            out.extend_from_slice(name.as_slice());
            assert(out@ =~= fmt_token(offset_ms as int) + name@);
        },
    }
    let ghost tokened = out@;
    match convert {
        None => out,
        Some(f) => {
            proof {
                lemma_fmt_token_len(
                    if token_shape(name@) {
                        token_ms(name@) + offset_ms as int
                    } else {
                        offset_ms as int
                    },
                );
            }
            let keep = out.len() - 3;
            out.truncate(keep);
            match f {
                Format::Srt => {
                    out.push(115);
                    out.push(114);
                    out.push(116);
                },
                Format::Vtt => {
                    out.push(118);
                    out.push(116);
                    out.push(116);
                },
            }
            assert(out@ =~= tokened.take(tokened.len() - 3) + ext_bytes(f));
            out
        },
    }
}

/// A token is at least eleven bytes long.
pub proof fn lemma_fmt_token_len(ms: int)
    ensures
        fmt_token(ms).len() >= 11,
        fmt_token(ms).len() == 11 + dec_digits(
            (((if ms < 0 {
                -ms
            } else {
                ms
            }) + 5) / 10 / 100) as nat,
        ).len(),
{
    let mag = if ms < 0 {
        -ms
    } else {
        ms
    };
    lemma_dec_digits((((mag + 5) / 10) / 100) as nat);
}

/// Decoding inverts formatting: the token written for a whole-centisecond
/// value reads back to exactly that value, whatever follows it.
pub proof fn lemma_token_roundtrip(v: int, rest: Seq<u8>)
    requires
        v % 10 == 0,
        -10_000_000_000_000_000 < v < 10_000_000_000_000_000,
    ensures
        token_shape(fmt_token(v) + rest),
        token_ms(fmt_token(v) + rest) == v,
        token_end(fmt_token(v) + rest) == fmt_token(v).len(),
{
    let t = fmt_token(v);
    let s = t + rest;
    let mag = if v < 0 {
        -v
    } else {
        v
    };
    let cs = (mag + 5) / 10;
    assert(mag % 10 == 0);
    assert(cs * 10 == mag && cs == mag / 10) by (nonlinear_arith)
        requires
            mag % 10 == 0,
            0 <= mag,
            cs == (mag + 5) / 10,
    ;
    let w = cs / 100;
    let m2 = cs % 100;
    lemma_pow10_values();
    assert(w < pow10(13)) by (nonlinear_arith)
        requires
            0 <= cs,
            cs * 10 == mag,
            mag < 10_000_000_000_000_000,
            w == cs / 100,
            pow10(13) == 10000000000000,
    ;
    lemma_dec_digits(w as nat);
    lemma_dec_digits_len(w as nat, 13);
    let wd = dec_digits(w as nat);
    let len = wd.len() as int;
    assert(t =~= seq![123u8, if v < 0 {
        45u8
    } else {
        43u8
    }] + wd + seq![46u8] + two_digit_bytes(m2) + seq![95u8, 83u8, 101u8, 99u8, 125u8, 95u8]);
    assert(t.len() == 11 + len);
    assert(forall|i: int| 0 <= i < t.len() ==> s[i] == t[i]);
    assert(s[0] == 123);
    assert(s[1] == 43 || s[1] == 45);
    let b = 2 + len;
    assert(forall|j: int| 2 <= j < b ==> s[j] == wd[j - 2]);
    assert(forall|j: int| 2 <= j < b ==> is_ascii_digit(#[trigger] s[j]));
    assert(s[b] == 46);
    lemma_digit_run_end_is(s, 2, b);
    assert(0 <= m2 / 10 <= 9 && 0 <= m2 % 10 <= 9);
    assert(s[b + 1] == crate::digits::digit_byte(m2 / 10));
    assert(s[b + 2] == crate::digits::digit_byte(m2 % 10));
    assert(is_ascii_digit(s[b + 1]) && is_ascii_digit(s[b + 2]));
    let c = b + 3;
    assert(s[c] == 95 && s[c + 1] == 83 && s[c + 2] == 101 && s[c + 3] == 99 && s[c + 4] == 125
        && s[c + 5] == 95);
    lemma_digit_run_end_is(s, b + 1, c);
    assert(token_shape(s));
    assert(token_end(s) == c + 6 == t.len());
    // the value read back
    assert(s.subrange(2, b) =~= wd);
    assert(digits_val(s.subrange(2, b)) == w);
    let fr = s.subrange(b + 1, c);
    assert(fr =~= two_digit_bytes(m2));
    crate::digits::lemma_digits_val_pair(fr);
    assert(digits_val(fr) == (m2 / 10) * 10 + m2 % 10);
    assert(digits_val(fr) == m2);
    assert(fr.len() == 2);
    assert(frac_ms(fr) == m2 * 10);
    assert(w * 1000 + m2 * 10 == cs * 10) by (nonlinear_arith)
        requires
            w == cs / 100,
            m2 == cs % 100,
            0 <= cs,
    ;
    assert(token_ms(s) == if s[1] == 45 {
        -(w * 1000 + m2 * 10)
    } else {
        w * 1000 + m2 * 10
    });
    if v < 0 {
        assert(token_ms(s) == -mag == v);
    } else {
        assert(token_ms(s) == mag == v);
    }
}

/// Offset composition: encoding a name with offset `a`, then encoding the
/// result with offset `b`, yields the very name that one encoding with
/// `a + b` yields. Holds for run offsets that are whole centiseconds (the
/// token carries two fraction digits) and cumulative values within the
/// token's range; an offset with a lone-millisecond remainder is rounded
/// when written and composition can then drift by that rounding.
pub proof fn lemma_offset_composition(name: Seq<u8>, a: int, b: int)
    requires
        a % 10 == 0,
        b % 10 == 0,
        -OFFSET_LIMIT <= a <= OFFSET_LIMIT,
        -OFFSET_LIMIT <= b <= OFFSET_LIMIT,
        token_shape(name) ==> token_ms(name) % 10 == 0,
        token_shape(name) ==> -10_000_000_000_000_000 < token_ms(name) + a
            < 10_000_000_000_000_000,
    ensures
        spec_encode_name(spec_encode_name(name, a, None), b, None) == spec_encode_name(
            name,
            a + b,
            None,
        ),
{
    if token_shape(name) {
        let t = token_ms(name);
        let base = name.skip(token_end(name));
        let enc1 = spec_encode_name(name, a, None);
        assert(enc1 == fmt_token(t + a) + base);
        lemma_token_roundtrip(t + a, base);
        assert(enc1.skip(token_end(enc1)) =~= base);
        assert(spec_encode_name(enc1, b, None) == fmt_token(t + a + b) + base);
        assert(spec_encode_name(name, a + b, None) == fmt_token(t + (a + b)) + base);
    } else {
        let enc1 = spec_encode_name(name, a, None);
        assert(enc1 == fmt_token(a) + name);
        lemma_token_roundtrip(a, name);
        assert(enc1.skip(token_end(enc1)) =~= name);
        assert(spec_encode_name(enc1, b, None) == fmt_token(a + b) + name);
        assert(spec_encode_name(name, a + b, None) == fmt_token(a + b) + name);
    }
}

} // verus!
