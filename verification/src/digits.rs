//! Decimal digits: spec-level views of digit bytes, decimal renderings of
//! unbounded naturals, and the value of a digit string, with the executable
//! rendering routine and the lemmas connecting them.

use vstd::prelude::*;

verus! {

/// A byte is an ASCII decimal digit.
pub open spec fn is_ascii_digit(b: u8) -> bool {
    48 <= b <= 57
}

/// Numeric value of a digit byte.
pub open spec fn digit_val(b: u8) -> int {
    b - 48
}

/// The digit byte for a value in `0..10`.
pub open spec fn digit_byte(d: int) -> u8 {
    (d + 48) as u8
}

/// Decimal rendering of a natural number, most significant digit first,
/// without leading zeros (`0` renders as `"0"`).
pub open spec fn dec_digits(n: nat) -> Seq<u8>
    decreases n,
{
    if n < 10 {
        seq![digit_byte(n as int)]
    } else {
        dec_digits(n / 10) + seq![digit_byte((n % 10) as int)]
    }
}

/// Value of a digit string read as a decimal number (empty string is 0).
pub open spec fn digits_val(s: Seq<u8>) -> int
    decreases s.len(),
{
    if s.len() == 0 {
        0
    } else {
        digits_val(s.drop_last()) * 10 + digit_val(s.last())
    }
}

/// Everything in `s` is a digit byte.
pub open spec fn all_digits(s: Seq<u8>) -> bool {
    forall|i: int| 0 <= i < s.len() ==> is_ascii_digit(#[trigger] s[i])
}

/// A decimal rendering consists of digit bytes and reads back to the number
/// it was made from.
pub proof fn lemma_dec_digits(n: nat)
    ensures
        dec_digits(n).len() >= 1,
        all_digits(dec_digits(n)),
        digits_val(dec_digits(n)) == n,
    decreases n,
{
    if n < 10 {
        let s = dec_digits(n);
        assert(s.drop_last() =~= Seq::<u8>::empty());
        assert(digits_val(s) == digits_val(s.drop_last()) * 10 + digit_val(s.last()));
    } else {
        lemma_dec_digits(n / 10);
        assert(dec_digits(n).drop_last() =~= dec_digits(n / 10));
        assert(dec_digits(n).last() == digit_byte((n % 10) as int));
    }
}

/// A digit string of bounded length has a bounded value.
pub proof fn lemma_digits_val_bound(s: Seq<u8>, bound: nat)
    requires
        all_digits(s),
        s.len() <= bound,
    ensures
        0 <= digits_val(s) < pow10(bound),
    decreases s.len(), bound,
{
    if s.len() == 0 {
        lemma_pow10_positive(bound);
    } else {
        assert(all_digits(s.drop_last()));
        lemma_digits_val_bound(s.drop_last(), (bound - 1) as nat);
        assert(pow10(bound) == 10 * pow10((bound - 1) as nat));
    }
}

/// Powers of ten.
pub open spec fn pow10(k: nat) -> int
    decreases k,
{
    if k == 0 {
        1
    } else {
        10 * pow10((k - 1) as nat)
    }
}

pub proof fn lemma_pow10_positive(k: nat)
    ensures
        pow10(k) >= 1,
    decreases k,
{
    if k > 0 {
        lemma_pow10_positive((k - 1) as nat);
    }
}

pub proof fn lemma_pow10_monotone(a: nat, b: nat)
    requires
        a <= b,
    ensures
        pow10(a) <= pow10(b),
    decreases b,
{
    if a < b {
        lemma_pow10_monotone(a, (b - 1) as nat);
        lemma_pow10_positive((b - 1) as nat);
    }
}

/// First index at or after `i` whose byte is not a digit (or the end).
pub open spec fn digit_run_end(s: Seq<u8>, i: int) -> int
    decreases s.len() - i,
{
    if i < 0 || i >= s.len() {
        i
    } else if !is_ascii_digit(s[i]) {
        i
    } else {
        digit_run_end(s, i + 1)
    }
}

/// What the run end means: everything before it is a digit, and it stops at
/// the first non-digit.
pub proof fn lemma_digit_run_end(s: Seq<u8>, i: int)
    requires
        0 <= i <= s.len(),
    ensures
        i <= digit_run_end(s, i) <= s.len(),
        forall|j: int| i <= j < digit_run_end(s, i) ==> is_ascii_digit(#[trigger] s[j]),
        digit_run_end(s, i) < s.len() ==> !is_ascii_digit(s[digit_run_end(s, i)]),
    decreases s.len() - i,
{
    if i < s.len() && is_ascii_digit(s[i]) {
        lemma_digit_run_end(s, i + 1);
    }
}

/// Conversely, a stretch of digits ending at the first non-digit is the run.
pub proof fn lemma_digit_run_end_is(s: Seq<u8>, i: int, j: int)
    requires
        0 <= i <= j <= s.len(),
        forall|k: int| i <= k < j ==> is_ascii_digit(#[trigger] s[k]),
        j == s.len() || !is_ascii_digit(s[j]),
    ensures
        digit_run_end(s, i) == j,
    decreases j - i,
{
    if i < j {
        lemma_digit_run_end_is(s, i + 1, j);
    }
}

/// Scans the digit run of `s` that starts at `from`, returning its end.
pub fn scan_digits(s: &Vec<u8>, from: usize) -> (r: usize)
    requires
        from <= s@.len(),
    ensures
        r == digit_run_end(s@, from as int),
        from <= r <= s@.len(),
{
    let n = s.len();
    let mut i = from;
    while i < n && 48 <= s[i] && s[i] <= 57
        invariant
            from <= i <= n == s@.len(),
            forall|k: int| from <= k < i ==> is_ascii_digit(#[trigger] s@[k]),
        decreases n - i,
    {
        i = i + 1;
    }
    proof {
        lemma_digit_run_end_is(s@, from as int, i as int);
    }
    i
}

/// Reads the digit string `s[from..to]` as a decimal value; at most
/// eighteen digits, so the value fits an `i64`.
pub fn digits_value(s: &Vec<u8>, from: usize, to: usize) -> (r: i64)
    requires
        from <= to <= s@.len(),
        to - from <= 18,
        forall|k: int| from <= k < to ==> is_ascii_digit(#[trigger] s@[k]),
    ensures
        r == digits_val(s@.subrange(from as int, to as int)),
        0 <= r < pow10((to - from) as nat),
{
    let mut v: i64 = 0;
    let mut i = from;
    proof {
        lemma_pow10_positive(0);
    }
    while i < to
        invariant
            from <= i <= to <= s@.len(),
            to - from <= 18,
            forall|k: int| from <= k < to ==> is_ascii_digit(#[trigger] s@[k]),
            v == digits_val(s@.subrange(from as int, i as int)),
            0 <= v < pow10((i - from) as nat),
        decreases to - i,
    {
        proof {
            assert(pow10((i - from) as nat) <= pow10(17)) by {
                lemma_pow10_monotone((i - from) as nat, 17);
            }
            lemma_pow10_values();
        }
        let d = (s[i] - 48) as i64;
        v = v * 10 + d;
        i = i + 1;
        proof {
            assert(s@.subrange(from as int, i as int).drop_last() =~= s@.subrange(
                from as int,
                i - 1,
            ));
        }
    }
    v
}

/// The small powers of ten, written out for the solver.
pub proof fn lemma_pow10_values()
    ensures
        pow10(0) == 1,
        pow10(1) == 10,
        pow10(2) == 100,
        pow10(3) == 1000,
        pow10(4) == 10000,
        pow10(5) == 100000,
        pow10(6) == 1000000,
        pow10(7) == 10000000,
        pow10(8) == 100000000,
        pow10(9) == 1000000000,
        pow10(10) == 10000000000,
        pow10(11) == 100000000000,
        pow10(12) == 1000000000000,
        pow10(13) == 10000000000000,
        pow10(14) == 100000000000000,
        pow10(15) == 1000000000000000,
        pow10(16) == 10000000000000000,
        pow10(17) == 100000000000000000,
        pow10(18) == 1000000000000000000,
{
    assert(pow10(0) == 1);
    assert(pow10(1) == 10);
    assert(pow10(2) == 100);
    assert(pow10(3) == 1000);
    assert(pow10(4) == 10000);
    assert(pow10(5) == 100000);
    assert(pow10(6) == 1000000);
    assert(pow10(7) == 10000000);
    assert(pow10(8) == 100000000);
    assert(pow10(9) == 1000000000);
    assert(pow10(10) == 10000000000);
    assert(pow10(11) == 100000000000);
    assert(pow10(12) == 1000000000000);
    assert(pow10(13) == 10000000000000);
    assert(pow10(14) == 100000000000000);
    assert(pow10(15) == 1000000000000000);
    assert(pow10(16) == 10000000000000000);
    assert(pow10(17) == 100000000000000000);
    assert(pow10(18) == 1000000000000000000);
}

/// A number below `pow10(k)` renders in at most `k` digits.
pub proof fn lemma_dec_digits_len(n: nat, k: nat)
    requires
        1 <= k,
        n < pow10(k),
    ensures
        dec_digits(n).len() <= k,
    decreases k,
{
    if n >= 10 {
        assert(pow10(k) == 10 * pow10((k - 1) as nat));
        lemma_dec_digits_len(n / 10, (k - 1) as nat);
    }
}

/// The value of a two-digit string, spelled out.
pub proof fn lemma_digits_val_pair(x: Seq<u8>)
    requires
        x.len() == 2,
    ensures
        digits_val(x) == digit_val(x[0]) * 10 + digit_val(x[1]),
{
    let y = x.drop_last();
    assert(y.drop_last() =~= Seq::<u8>::empty());
    assert(digits_val(y.drop_last()) == 0);
    assert(y.last() == x[0]);
    assert(digits_val(y) == digits_val(y.drop_last()) * 10 + digit_val(y.last()));
    assert(digits_val(x) == digits_val(y) * 10 + digit_val(x.last()));
}

/// The value of a three-digit string, spelled out.
pub proof fn lemma_digits_val_triple(x: Seq<u8>)
    requires
        x.len() == 3,
    ensures
        digits_val(x) == digit_val(x[0]) * 100 + digit_val(x[1]) * 10 + digit_val(x[2]),
{
    assert(x.drop_last() =~= x.take(2));
    lemma_digits_val_pair(x.take(2));
    assert(x.take(2)[0] == x[0] && x.take(2)[1] == x[1]);
}

/// The milliseconds a string of fraction-of-a-second digits denotes,
/// truncated past millisecond precision (`"5"` is 500, `"0042"` is 4).
pub open spec fn frac_ms(d: Seq<u8>) -> int {
    if d.len() == 0 {
        0
    } else if d.len() == 1 {
        digits_val(d) * 100
    } else if d.len() == 2 {
        digits_val(d) * 10
    } else {
        digits_val(d.take(3))
    }
}

pub proof fn lemma_frac_ms_bound(d: Seq<u8>)
    requires
        all_digits(d),
    ensures
        0 <= frac_ms(d) < 1000,
{
    if d.len() == 1 {
        lemma_digits_val_bound(d, 1);
        assert(pow10(1) == 10 * pow10(0));
    } else if d.len() == 2 {
        lemma_digits_val_bound(d, 2);
        assert(pow10(2) == 10 * pow10(1) && pow10(1) == 10 * pow10(0));
    } else if d.len() >= 3 {
        assert(all_digits(d.take(3)));
        lemma_digits_val_bound(d.take(3), 3);
        assert(pow10(3) == 10 * pow10(2) && pow10(2) == 10 * pow10(1) && pow10(1) == 10 * pow10(
            0,
        ));
    }
}

/// Appends the decimal rendering of `n` to `out`.
pub fn push_u64_decimal(out: &mut Vec<u8>, n: u64)
    ensures
        final(out)@ == old(out)@ + dec_digits(n as nat),
    decreases n,
{
    if n < 10 {
        out.push((n as u8) + 48);
        assert(out@ =~= old(out)@ + dec_digits(n as nat));
    } else {
        push_u64_decimal(out, n / 10);
        out.push(((n % 10) as u8) + 48);
        assert(out@ =~= old(out)@ + dec_digits(n as nat));
    }
}

} // verus!
