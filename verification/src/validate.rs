//! Validation of command-line values: the subtitle-file extension check and
//! the check that a string is a decimal number as the standard float parser
//! accepts it (optional sign; digits with optional point and fraction, or a
//! point with fraction; optional exponent; or the words `inf`, `infinity`
//! and `nan` in any letter case).

use vstd::prelude::*;

verus! {

/// The name ends in `.srt` or `.vtt`.
pub open spec fn has_subtitle_ext(s: Seq<char>) -> bool {
    &&& s.len() >= 4
    &&& s[s.len() - 4] == '.'
    &&& ((s[s.len() - 3] == 's' && s[s.len() - 2] == 'r' && s[s.len() - 1] == 't') || (s[s.len()
        - 3] == 'v' && s[s.len() - 2] == 't' && s[s.len() - 1] == 't'))
}

/// Accepts exactly the file names ending in `.srt` or `.vtt`.
pub fn is_srt_or_vtt(input: String) -> (r: Result<(), String>)
    ensures
        r is Ok <==> has_subtitle_ext(input@),
        r matches Err(m) ==> m@ ==
            "incorrect file extension\n\nOnly \u{001b}[32m.srt\u{001b}[0m or \u{001b}[32m.vtt\u{001b}[0m files are allowed."@,
{
    let s = input.as_str();
    let n = s.unicode_len();
    if n >= 4 {
        let dot = s.get_char(n - 4);
        let a = s.get_char(n - 3);
        let b = s.get_char(n - 2);
        let c = s.get_char(n - 1);
        if dot == '.' && ((a == 's' && b == 'r' && c == 't') || (a == 'v' && b == 't' && c == 't'))
            {
            return Ok(());
        }
    }
    Err(
        "incorrect file extension\n\nOnly \u{001b}[32m.srt\u{001b}[0m or \u{001b}[32m.vtt\u{001b}[0m files are allowed.".to_owned(),
    )
}

/// The character is a decimal digit.
pub open spec fn is_digit_char(c: char) -> bool {
    '0' <= c <= '9'
}

/// First index at or after `i` whose character is not a digit (or the end).
pub open spec fn char_run_end(s: Seq<char>, i: int) -> int
    decreases s.len() - i,
{
    if i < 0 || i >= s.len() {
        i
    } else if !is_digit_char(s[i]) {
        i
    } else {
        char_run_end(s, i + 1)
    }
}

proof fn lemma_char_run_end_is(s: Seq<char>, i: int, j: int)
    requires
        0 <= i <= j <= s.len(),
        forall|k: int| i <= k < j ==> is_digit_char(#[trigger] s[k]),
        j == s.len() || !is_digit_char(s[j]),
    ensures
        char_run_end(s, i) == j,
    decreases j - i,
{
    if i < j {
        lemma_char_run_end_is(s, i + 1, j);
    }
}

/// Index after an optional leading sign at `i`.
pub open spec fn sign_end(s: Seq<char>, i: int) -> int {
    if i < s.len() && (s[i] == '+' || s[i] == '-') {
        i + 1
    } else {
        i
    }
}

/// The rest of the string from `i` is `inf`, in any letter case.
pub open spec fn is_inf_word(s: Seq<char>, i: int) -> bool {
    &&& s.len() - i == 3
    &&& (s[i] == 'i' || s[i] == 'I')
    &&& (s[i + 1] == 'n' || s[i + 1] == 'N')
    &&& (s[i + 2] == 'f' || s[i + 2] == 'F')
}

/// The rest of the string from `i` is `infinity`, in any letter case.
pub open spec fn is_infinity_word(s: Seq<char>, i: int) -> bool {
    &&& s.len() - i == 8
    &&& (s[i] == 'i' || s[i] == 'I')
    &&& (s[i + 1] == 'n' || s[i + 1] == 'N')
    &&& (s[i + 2] == 'f' || s[i + 2] == 'F')
    &&& (s[i + 3] == 'i' || s[i + 3] == 'I')
    &&& (s[i + 4] == 'n' || s[i + 4] == 'N')
    &&& (s[i + 5] == 'i' || s[i + 5] == 'I')
    &&& (s[i + 6] == 't' || s[i + 6] == 'T')
    &&& (s[i + 7] == 'y' || s[i + 7] == 'Y')
}

/// The rest of the string from `i` is `nan`, in any letter case.
pub open spec fn is_nan_word(s: Seq<char>, i: int) -> bool {
    &&& s.len() - i == 3
    &&& (s[i] == 'n' || s[i] == 'N')
    &&& (s[i + 1] == 'a' || s[i + 1] == 'A')
    &&& (s[i + 2] == 'n' || s[i + 2] == 'N')
}

/// From `k` the string either ends or carries a well-formed exponent:
/// `e`/`E`, an optional sign, and at least one digit reaching the end.
pub open spec fn exp_tail_ok(s: Seq<char>, k: int) -> bool {
    k == s.len() || ((s[k] == 'e' || s[k] == 'E') && ({
        let m = sign_end(s, k + 1);
        m < s.len() && char_run_end(s, m) == s.len()
    }))
}

/// From `i` the string is a decimal number: digits with an optional point
/// and optional fraction digits, or a point with fraction digits, followed
/// by an optional exponent.
pub open spec fn is_number_from(s: Seq<char>, i: int) -> bool {
    let d1 = char_run_end(s, i);
    if d1 > i {
        if d1 < s.len() && s[d1] == '.' {
            exp_tail_ok(s, char_run_end(s, d1 + 1))
        } else {
            exp_tail_ok(s, d1)
        }
    } else if i < s.len() && s[i] == '.' {
        let d2 = char_run_end(s, i + 1);
        d2 > i + 1 && exp_tail_ok(s, d2)
    } else {
        false
    }
}

/// The whole string is a floating-point value as the standard parser reads
/// it: an optional sign, then `inf`, `infinity`, `nan` or a decimal number.
pub open spec fn is_float_chars(s: Seq<char>) -> bool {
    let i = sign_end(s, 0);
    ||| is_inf_word(s, i)
    ||| is_infinity_word(s, i)
    ||| is_nan_word(s, i)
    ||| is_number_from(s, i)
}

/// Scans the digit run starting at `from`.
fn scan_digit_chars(s: &str, from: usize, n: usize) -> (r: usize)
    requires
        n == s@.len(),
        from <= n,
    ensures
        r == char_run_end(s@, from as int),
        from <= r <= n,
{
    let mut i = from;
    let mut stopped = false;
    while i < n && !stopped
        invariant
            from <= i <= n == s@.len(),
            forall|k: int| from <= k < i ==> is_digit_char(#[trigger] s@[k]),
            stopped ==> i < n && !is_digit_char(s@[i as int]),
        decreases n - i, 1int - if stopped {
            1int
        } else {
            0int
        },
    {
        let c = s.get_char(i);
        if '0' <= c && c <= '9' {
            i = i + 1;
        } else {
            stopped = true;
        }
    }
    proof {
        lemma_char_run_end_is(s@, from as int, i as int);
    }
    i
}

/// Decides `exp_tail_ok` at `k`.
fn exp_tail_check(s: &str, k: usize, n: usize) -> (r: bool)
    requires
        n == s@.len(),
        k <= n,
    ensures
        r == exp_tail_ok(s@, k as int),
{
    if k == n {
        return true;
    }
    let c = s.get_char(k);
    if c != 'e' && c != 'E' {
        return false;
    }
    let m = if k + 1 < n {
        let c2 = s.get_char(k + 1);
        if c2 == '+' || c2 == '-' {
            k + 2
        } else {
            k + 1
        }
    } else {
        k + 1
    };
    if m >= n {
        return false;
    }
    let e = scan_digit_chars(s, m, n);
    e == n
}

/// Accepts exactly the strings that parse as a floating-point number.
pub fn is_float(seconds: String) -> (r: Result<(), String>)
    ensures
        r is Ok <==> is_float_chars(seconds@),
        r matches Err(m) ==> m@ == "should be a number"@,
{
    let s = seconds.as_str();
    let n = s.unicode_len();
    let i = if n > 0 {
        let c = s.get_char(0);
        if c == '+' || c == '-' {
            1
        } else {
            0
        }
    } else {
        0
    };
    if n - i == 3 {
        let a = s.get_char(i);
        let b = s.get_char(i + 1);
        let c = s.get_char(i + 2);
        if (a == 'i' || a == 'I') && (b == 'n' || b == 'N') && (c == 'f' || c == 'F') {
            return Ok(());
        }
        if (a == 'n' || a == 'N') && (b == 'a' || b == 'A') && (c == 'n' || c == 'N') {
            return Ok(());
        }
    }
    if n - i == 8 {
        let c0 = s.get_char(i);
        let c1 = s.get_char(i + 1);
        let c2 = s.get_char(i + 2);
        let c3 = s.get_char(i + 3);
        let c4 = s.get_char(i + 4);
        let c5 = s.get_char(i + 5);
        let c6 = s.get_char(i + 6);
        let c7 = s.get_char(i + 7);
        if (c0 == 'i' || c0 == 'I') && (c1 == 'n' || c1 == 'N') && (c2 == 'f' || c2 == 'F') && (c3
            == 'i' || c3 == 'I') && (c4 == 'n' || c4 == 'N') && (c5 == 'i' || c5 == 'I') && (c6
            == 't' || c6 == 'T') && (c7 == 'y' || c7 == 'Y') {
            return Ok(());
        }
    }
    let accepted = {
        let d1 = scan_digit_chars(s, i, n);
        if d1 > i {
            let k = if d1 < n && s.get_char(d1) == '.' {
                scan_digit_chars(s, d1 + 1, n)
            } else {
                d1
            };
            exp_tail_check(s, k, n)
        } else if i < n && s.get_char(i) == '.' {
            let d2 = scan_digit_chars(s, i + 1, n);
            d2 > i + 1 && exp_tail_check(s, d2, n)
        } else {
            false
        }
    };
    if accepted {
        Ok(())
    } else {
        Err("should be a number".to_owned())
    }
}

} // verus!
