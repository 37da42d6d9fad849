//! Decoding of the meter's ASCII numeric fields into integer milli-units.
//!
//! A field is a short run of bytes such as `"5.000"` or `" -.---"`. After its
//! leading whitespace a field either starts with `-`, which marks a quantity
//! that the meter does not report while it is switched off, or holds a
//! decimal number. The number is scaled by 1000 and truncated, so that
//! `"1.2345"` decodes to `1234`; the arithmetic is exact, no floating point
//! is involved.

use vstd::prelude::*;

use crate::error::HospError;

verus! {

/// ASCII space.
pub const SPACE: u8 = 0x20;

/// ASCII horizontal tab, the first of the five control characters that
/// count as whitespace.
pub const TAB: u8 = 0x09;

/// ASCII carriage return, the last of the five control characters that
/// count as whitespace.
pub const CARRIAGE_RETURN: u8 = 0x0d;

/// ASCII `+`.
pub const PLUS: u8 = 0x2b;

/// ASCII `-`: the sign of an exponent, and at the start of a field the mark
/// of an unavailable quantity.
pub const MINUS: u8 = 0x2d;

/// ASCII `.`.
pub const POINT: u8 = 0x2e;

/// ASCII `0`.
pub const ZERO: u8 = 0x30;

/// ASCII `9`.
pub const NINE: u8 = 0x39;

/// ASCII `E`.
pub const UPPER_E: u8 = 0x45;

/// ASCII `e`.
pub const LOWER_E: u8 = 0x65;

/// Magnitude at which the exponent of a number stops being accumulated.
/// It is larger than the length of any slice, so an exponent that reaches it
/// moves every digit of the mantissa out of the `u32` range, or below one.
pub const EXPONENT_CAP: u128 = 0x40_0000_0000_0000_0000;

/// Whether `b` is ASCII whitespace: space, tab, line feed, vertical tab,
/// form feed or carriage return.
pub open spec fn is_space(b: u8) -> bool {
    b == SPACE || (TAB <= b && b <= CARRIAGE_RETURN)
}

/// Whether `b` is an ASCII decimal digit.
pub open spec fn is_digit(b: u8) -> bool {
    ZERO <= b && b <= NINE
}

/// Length of the longest run of whitespace that starts at index `from`.
pub open spec fn space_run(s: Seq<u8>, from: int) -> nat
    decreases s.len() - from,
{
    if 0 <= from < s.len() && is_space(s[from]) {
        1 + space_run(s, from + 1)
    } else {
        0
    }
}

/// Length of the longest run of digits that starts at index `from`.
pub open spec fn digit_run(s: Seq<u8>, from: int) -> nat
    decreases s.len() - from,
{
    if 0 <= from < s.len() && is_digit(s[from]) {
        1 + digit_run(s, from + 1)
    } else {
        0
    }
}

/// The digit at position `i` of a digit string, read as if the string were
/// followed by zeros without end.
pub open spec fn digit_at(digits: Seq<u8>, i: int) -> nat {
    if 0 <= i < digits.len() && is_digit(digits[i]) {
        (digits[i] - ZERO) as nat
    } else {
        0
    }
}

/// The number written by the first `k` digits of `digits`, where zeros stand
/// in for the digits past its end.
pub open spec fn prefix_value(digits: Seq<u8>, k: nat) -> nat
    decreases k,
{
    if k == 0 {
        0
    } else {
        10 * prefix_value(digits, (k - 1) as nat) + digit_at(digits, k - 1)
    }
}

/// The number written by a string of decimal digits.
pub open spec fn digits_value(digits: Seq<u8>) -> nat {
    prefix_value(digits, digits.len())
}

/// Ten to the power `n`.
pub open spec fn pow10(n: nat) -> nat
    decreases n,
{
    if n == 0 {
        1
    } else {
        10 * pow10((n - 1) as nat)
    }
}

/// `m` with its decimal point moved `k` places to the right (to the left
/// for a negative `k`), truncated to an integer.
pub open spec fn shift10(m: nat, k: int) -> nat {
    if k >= 0 {
        m * pow10(k as nat)
    } else {
        m / pow10((-k) as nat)
    }
}

/// A decimal number as it was written: its digits without sign, point and
/// exponent, and the power of ten that the digit string is multiplied by.
pub struct Decimal {
    pub digits: Seq<u8>,
    pub scale: int,
}

/// Where the digits of a number stand in its text: those before the point
/// at `int_start..int_end`, those after it at `frac_start..frac_end`.
pub struct Mantissa {
    pub int_start: int,
    pub int_end: int,
    pub frac_start: int,
    pub frac_end: int,
}

impl Mantissa {
    /// The digits before and after the point, as one string.
    pub open spec fn digits(self, text: Seq<u8>) -> Seq<u8> {
        text.subrange(self.int_start, self.int_end) + text.subrange(self.frac_start, self.frac_end)
    }

    /// How many digits stand after the point.
    pub open spec fn frac_len(self) -> int {
        self.frac_end - self.frac_start
    }
}

/// The mantissa at the start of `text`: an optional `+`, then as many
/// digits as there are, then, if a `.` follows, the point and as many digits
/// as follow it.
pub open spec fn mantissa_of(text: Seq<u8>) -> Mantissa {
    let int_start: int = if text.len() > 0 && text[0] == PLUS { 1 } else { 0 };
    let int_end = int_start + digit_run(text, int_start);
    let has_point = int_end < text.len() && text[int_end] == POINT;
    let frac_start = if has_point { int_end + 1 } else { int_end };
    let frac_len: nat = if has_point { digit_run(text, frac_start) } else { 0 };
    Mantissa { int_start, int_end, frac_start, frac_end: frac_start + frac_len }
}

/// The exponent written from index `from` to the end of `text`: zero where
/// the text ends at `from`; else `e` or `E`, an optional sign and at least
/// one digit, with nothing after them. Anything else is `None`.
pub open spec fn exponent_of(text: Seq<u8>, from: int) -> Option<int> {
    if from == text.len() {
        Some(0)
    } else if text[from] == LOWER_E || text[from] == UPPER_E {
        let signed = from + 1 < text.len() && (text[from + 1] == PLUS || text[from + 1] == MINUS);
        let start = if signed { from + 2 } else { from + 1 };
        let magnitude = digits_value(text.subrange(start, text.len() as int));
        if start < text.len() && start + digit_run(text, start) == text.len() {
            if signed && text[from + 1] == MINUS {
                Some(-magnitude)
            } else {
                Some(magnitude as int)
            }
        } else {
            None
        }
    } else {
        None
    }
}

/// Reads `text` as a decimal number.
///
/// The accepted form is an optional `+`, then digits with at most one `.`
/// among, before or after them, then optionally `e` or `E`, an optional sign
/// and at least one digit. At least one digit must stand before the
/// exponent, and nothing may follow the number. Anything else is `None`.
pub open spec fn parse_decimal(text: Seq<u8>) -> Option<Decimal> {
    let mantissa = mantissa_of(text);
    let digits = mantissa.digits(text);
    let exponent = exponent_of(text, mantissa.frac_end);
    if digits.len() > 0 && exponent is Some {
        Some(Decimal { digits, scale: exponent.unwrap() - mantissa.frac_len() })
    } else {
        None
    }
}

/// The value of `d` in thousandths, truncated toward zero.
pub open spec fn milli_value(d: Decimal) -> nat {
    shift10(digits_value(d.digits), d.scale + 3)
}

/// `n` as a `u32`, or `u32::MAX` where it does not fit.
pub open spec fn saturate(n: nat) -> u32 {
    if n >= u32::MAX {
        u32::MAX
    } else {
        n as u32
    }
}

/// Whether a field holds the mark of an absent quantity: its first byte
/// after the leading whitespace is `-`.
pub open spec fn is_absent(bytes: Seq<u8>) -> bool {
    let text = bytes.skip(space_run(bytes, 0) as int);
    text.len() > 0 && text[0] == MINUS
}

/// What a numeric field decodes to.
///
/// Leading whitespace is skipped. A field whose first other byte is `-`
/// holds no quantity: `Ok(None)`. Any other field must be a decimal number,
/// and decodes to its value in thousandths, truncated, and saturated at
/// `u32::MAX`; a field that is not a number is `Err(HospError::Parse)`.
pub open spec fn field_milliunits(bytes: Seq<u8>) -> Result<Option<u32>, HospError> {
    if is_absent(bytes) {
        Ok(None)
    } else {
        match parse_decimal(bytes.skip(space_run(bytes, 0) as int)) {
            Some(d) => Ok(Some(saturate(milli_value(d)))),
            None => Err(HospError::Parse),
        }
    }
}

/// Every power of ten is positive.
proof fn lemma_pow10_positive(n: nat)
    ensures
        pow10(n) >= 1,
    decreases n,
{
    if n > 0 {
        lemma_pow10_positive((n - 1) as nat);
    }
}

/// Powers of ten grow with the exponent.
proof fn lemma_pow10_monotonic(a: nat, b: nat)
    requires
        a <= b,
    ensures
        pow10(a) <= pow10(b),
    decreases b,
{
    if a < b {
        lemma_pow10_monotonic(a, (b - 1) as nat);
    }
}

/// A number of `k` digits is below the `k`-th power of ten.
proof fn lemma_prefix_value_bound(digits: Seq<u8>, k: nat)
    ensures
        prefix_value(digits, k) < pow10(k),
    decreases k,
{
    if k > 0 {
        lemma_prefix_value_bound(digits, (k - 1) as nat);
    }
}

/// Past the end of the digit string each further position multiplies the
/// number by ten.
proof fn lemma_prefix_value_padded(digits: Seq<u8>, k: nat, m: nat)
    requires
        digits.len() <= k <= m,
    ensures
        prefix_value(digits, m) == prefix_value(digits, k) * pow10((m - k) as nat),
    decreases m,
{
    if k < m {
        let v = prefix_value(digits, k);
        let p = pow10((m - 1 - k) as nat);
        lemma_prefix_value_padded(digits, k, (m - 1) as nat);
        assert(prefix_value(digits, m) == 10 * (v * p));
        assert(pow10((m - k) as nat) == 10 * p);
        assert(10 * (v * p) == v * (10 * p)) by (nonlinear_arith);
    } else {
        assert(prefix_value(digits, k) * 1 == prefix_value(digits, k)) by (nonlinear_arith);
    }
}

/// Dropping the last `m - k` digits divides the number by that power of
/// ten, truncating.
proof fn lemma_prefix_value_truncated(digits: Seq<u8>, k: nat, m: nat)
    requires
        k <= m,
    ensures
        prefix_value(digits, k) == prefix_value(digits, m) / pow10((m - k) as nat),
    decreases m - k,
{
    let v = prefix_value(digits, m);
    if k < m {
        let p = pow10((m - k - 1) as nat);
        lemma_prefix_value_truncated(digits, k + 1, m);
        lemma_pow10_positive((m - k - 1) as nat);
        let next = prefix_value(digits, k + 1);
        assert(next == v / p);
        assert(next == 10 * prefix_value(digits, k) + digit_at(digits, k as int));
        assert(prefix_value(digits, k) == next / 10);
        vstd::arithmetic::div_mod::lemma_div_denominator(v as int, p as int, 10);
        assert(pow10((m - k) as nat) == 10 * p);
        assert(p * 10 == 10 * p);
    } else {
        assert(v / 1 == v);
    }
}

/// Moving the decimal point of a number of `n` digits by `k` places leaves
/// the number written by its first `n + k` digits.
proof fn lemma_shift_is_prefix(digits: Seq<u8>, k: int)
    ensures
        shift10(digits_value(digits), k) == prefix_value(
            digits,
            if digits.len() + k >= 0 {
                (digits.len() + k) as nat
            } else {
                0
            },
        ),
{
    let n = digits.len();
    let v = digits_value(digits);
    if k >= 0 {
        lemma_prefix_value_padded(digits, n, (n + k) as nat);
    } else if n + k >= 0 {
        lemma_prefix_value_truncated(digits, (n + k) as nat, n);
    } else {
        lemma_prefix_value_bound(digits, n);
        lemma_pow10_monotonic(n, (-k) as nat);
        vstd::arithmetic::div_mod::lemma_basic_div(v as int, pow10((-k) as nat) as int);
    }
}

/// Whitespace in front of a field is skipped up to its first other byte.
proof fn lemma_space_run_ends(bytes: Seq<u8>, from: int, to: int)
    requires
        0 <= from <= to <= bytes.len(),
        forall|i: int| from <= i < to ==> is_space(#[trigger] bytes[i]),
        to < bytes.len() ==> !is_space(bytes[to]),
    ensures
        space_run(bytes, from) == to - from,
    decreases to - from,
{
    if from < to {
        lemma_space_run_ends(bytes, from + 1, to);
    }
}

/// A field whose first byte after any whitespace is `-` decodes to no
/// quantity, whatever bytes follow the `-`.
pub proof fn lemma_absent_whatever_follows(spaces: Seq<u8>, rest: Seq<u8>)
    requires
        forall|i: int| 0 <= i < spaces.len() ==> is_space(#[trigger] spaces[i]),
    ensures
        is_absent(spaces + seq![MINUS] + rest),
        field_milliunits(spaces + seq![MINUS] + rest) == Ok::<Option<u32>, HospError>(None),
{
    let bytes = spaces + seq![MINUS] + rest;
    assert(bytes[spaces.len() as int] == MINUS);
    assert forall|i: int| 0 <= i < spaces.len() implies is_space(#[trigger] bytes[i]) by {
        assert(bytes[i] == spaces[i]);
    }
    lemma_space_run_ends(bytes, 0, spaces.len() as int);
}

/// A run of digits ends at the first byte that is no digit.
proof fn lemma_digit_run_ends(bytes: Seq<u8>, from: int, to: int)
    requires
        0 <= from <= to <= bytes.len(),
        forall|i: int| from <= i < to ==> is_digit(#[trigger] bytes[i]),
        to < bytes.len() ==> !is_digit(bytes[to]),
    ensures
        digit_run(bytes, from) == to - from,
    decreases to - from,
{
    if from < to {
        lemma_digit_run_ends(bytes, from + 1, to);
    }
}

/// Digits, a point and more digits are a number: it decodes to the number
/// that the digits before the point and the first three after it write,
/// with zeros for the decimals that are missing.
pub proof fn lemma_plain_number_decodes(whole: Seq<u8>, decimals: Seq<u8>)
    requires
        forall|i: int| 0 <= i < whole.len() ==> is_digit(#[trigger] whole[i]),
        forall|i: int| 0 <= i < decimals.len() ==> is_digit(#[trigger] decimals[i]),
        whole.len() + decimals.len() > 0,
    ensures
        parse_decimal(whole + seq![POINT] + decimals) == Some(
            Decimal { digits: whole + decimals, scale: -(decimals.len() as int) },
        ),
        field_milliunits(whole + seq![POINT] + decimals) == Ok::<Option<u32>, HospError>(
            Some(saturate(prefix_value(whole + decimals, whole.len() + 3))),
        ),
{
    let text = whole + seq![POINT] + decimals;
    let n = whole.len() as int;
    assert(text[n] == POINT);
    assert forall|i: int| 0 <= i < n implies is_digit(#[trigger] text[i]) by {
        assert(text[i] == whole[i]);
    }
    assert forall|i: int| n + 1 <= i < text.len() implies is_digit(#[trigger] text[i]) by {
        assert(text[i] == decimals[i - n - 1]);
    }
    lemma_digit_run_ends(text, 0, n);
    lemma_digit_run_ends(text, n + 1, text.len() as int);
    assert(!is_space(text[0]));
    assert(text.skip(0) =~= text);
    let mantissa = mantissa_of(text);
    assert(mantissa.int_start == 0 && mantissa.int_end == n);
    assert(mantissa.frac_start == n + 1 && mantissa.frac_end == text.len());
    assert(mantissa.digits(text) =~= whole + decimals);
    lemma_shift_is_prefix(whole + decimals, 3 - decimals.len());
}

/// The milli-units of a number are written by its digits up to the third
/// one after the decimal point, where the point is taken at the place to
/// which the exponent moves it. Later digits are dropped, not rounded.
pub proof fn lemma_milli_value_keeps_three_decimals(d: Decimal)
    ensures
        d.digits.len() + d.scale + 3 >= 0 ==> milli_value(d) == prefix_value(
            d.digits,
            (d.digits.len() + d.scale + 3) as nat,
        ),
        d.digits.len() + d.scale + 3 < 0 ==> milli_value(d) == 0,
{
    lemma_shift_is_prefix(d.digits, d.scale + 3);
}

/// The milli-units of a number are its thousandths rounded down: where
/// digits are dropped, the number lies between the result and the result
/// plus one.
pub proof fn lemma_milli_value_truncates(d: Decimal)
    ensures
        d.scale + 3 >= 0 ==> milli_value(d) == digits_value(d.digits) * pow10(
            (d.scale + 3) as nat,
        ),
        d.scale + 3 < 0 ==> milli_value(d) * pow10((-(d.scale + 3)) as nat) <= digits_value(
            d.digits,
        ) < (milli_value(d) + 1) * pow10((-(d.scale + 3)) as nat),
{
    if d.scale + 3 < 0 {
        let v = digits_value(d.digits) as int;
        let p = pow10((-(d.scale + 3)) as nat) as int;
        lemma_pow10_positive((-(d.scale + 3)) as nat);
        vstd::arithmetic::div_mod::lemma_fundamental_div_mod(v, p);
        vstd::arithmetic::div_mod::lemma_mod_bound(v, p);
        assert((v / p + 1) * p == (v / p) * p + p) by (nonlinear_arith);
        assert(p * (v / p) == (v / p) * p) by (nonlinear_arith);
    }
}

/// Ten zeros after the last digit already decide the saturated value: the
/// number is zero, or it is past the range of `u32`.
proof fn lemma_saturated_after_ten(digits: Seq<u8>, k: nat)
    requires
        k >= digits.len() + 10,
    ensures
        saturate(prefix_value(digits, k)) == saturate(
            prefix_value(digits, (digits.len() + 10) as nat),
        ),
{
    let n = digits.len();
    let v = prefix_value(digits, n);
    let p = pow10((k - n) as nat);
    let q = pow10(10);
    lemma_prefix_value_padded(digits, n, k);
    lemma_prefix_value_padded(digits, n, (n + 10) as nat);
    lemma_pow10_monotonic(10, (k - n) as nat);
    assert(q == 10_000_000_000) by {
        reveal_with_fuel(pow10, 11);
    }
    if v == 0 {
        assert(v * p == 0) by (nonlinear_arith)
            requires
                v == 0,
        ;
        assert(v * q == 0) by (nonlinear_arith)
            requires
                v == 0,
        ;
    } else {
        assert(v * p >= p) by (nonlinear_arith)
            requires
                v >= 1,
                p >= 0,
        ;
        assert(v * q >= q) by (nonlinear_arith)
            requires
                v >= 1,
                q >= 0,
        ;
    }
}

/// Saturating after each digit gives the same as saturating once at the end.
proof fn lemma_saturate_step(v: nat, digit: nat)
    requires
        digit <= 9,
    ensures
        saturate(10 * (saturate(v) as nat) + digit) == saturate(10 * v + digit),
{
}

/// Whether `b` is ASCII whitespace.
fn byte_is_space(b: u8) -> (r: bool)
    ensures
        r == is_space(b),
{
    b == SPACE || (TAB <= b && b <= CARRIAGE_RETURN)
}

/// Whether `b` is an ASCII decimal digit.
fn byte_is_digit(b: u8) -> (r: bool)
    ensures
        r == is_digit(b),
{
    ZERO <= b && b <= NINE
}

/// Index of the first byte of `s` that is not whitespace.
fn skip_spaces(s: &[u8]) -> (k: usize)
    ensures
        k == space_run(s@, 0),
        k <= s.len(),
{
    let mut k: usize = 0;
    while k < s.len() && byte_is_space(s[k])
        invariant
            k <= s.len(),
            space_run(s@, 0) == k + space_run(s@, k as int),
        decreases s.len() - k,
    {
        k += 1;
    }
    k
}

/// Index just past the run of digits that starts at `from`.
fn scan_digits(s: &[u8], from: usize) -> (to: usize)
    requires
        from <= s.len(),
    ensures
        to == from + digit_run(s@, from as int),
        to <= s.len(),
        forall|i: int| from <= i < to ==> is_digit(#[trigger] s@[i]),
{
    let mut to: usize = from;
    while to < s.len() && byte_is_digit(s[to])
        invariant
            from <= to <= s.len(),
            digit_run(s@, from as int) == (to - from) + digit_run(s@, to as int),
            forall|i: int| from <= i < to ==> is_digit(#[trigger] s@[i]),
        decreases s.len() - to,
    {
        to += 1;
    }
    to
}

/// Appends one digit to a saturated number.
fn push_digit(acc: u32, digit: u8) -> (r: u32)
    requires
        digit <= 9,
    ensures
        r == saturate(10 * (acc as nat) + (digit as nat)),
{
    let wide: u64 = (acc as u64) * 10 + (digit as u64);
    if wide >= u32::MAX as u64 {
        u32::MAX
    } else {
        wide as u32
    }
}

/// Appends the digits `s[from..to]` to a saturated number. They are the
/// digits of `digits` from position `j` on, and `acc` stands for the `j`
/// digits before them.
fn fold_digits(
    s: &[u8],
    from: usize,
    to: usize,
    acc: u32,
    Ghost(digits): Ghost<Seq<u8>>,
    Ghost(j): Ghost<nat>,
) -> (r: u32)
    requires
        from <= to <= s.len(),
        forall|i: int|
            from <= i < to ==> is_digit(#[trigger] s@[i]) && digit_at(digits, j + (i - from)) == s@[i]
                - ZERO,
        acc == saturate(prefix_value(digits, j)),
    ensures
        r == saturate(prefix_value(digits, (j + (to - from)) as nat)),
{
    let mut acc: u32 = acc;
    let mut i: usize = from;
    while i < to
        invariant
            from <= i <= to <= s.len(),
            forall|i: int|
                from <= i < to ==> is_digit(#[trigger] s@[i]) && digit_at(digits, j + (i - from))
                    == s@[i] - ZERO,
            acc == saturate(prefix_value(digits, (j + (i - from)) as nat)),
        decreases to - i,
    {
        let digit: u8 = s[i] - ZERO;
        proof {
            assert(is_digit(s@[i as int]));
            lemma_saturate_step(prefix_value(digits, (j + (i - from)) as nat), digit as nat);
        }
        acc = push_digit(acc, digit);
        i += 1;
    }
    acc
}

/// Appends `count` zeros to a saturated number that stands for the first
/// `j` digits of `digits`, all of its digits among them.
fn pad_zeros(acc: u32, count: usize, Ghost(digits): Ghost<Seq<u8>>, Ghost(j): Ghost<nat>) -> (r:
    u32)
    requires
        j >= digits.len(),
        acc == saturate(prefix_value(digits, j)),
    ensures
        r == saturate(prefix_value(digits, j + count as nat)),
{
    let mut acc: u32 = acc;
    let mut done: usize = 0;
    while done < count
        invariant
            done <= count,
            j >= digits.len(),
            acc == saturate(prefix_value(digits, j + done as nat)),
        decreases count - done,
    {
        proof {
            lemma_saturate_step(prefix_value(digits, j + done as nat), 0);
        }
        acc = push_digit(acc, 0);
        done += 1;
    }
    acc
}

/// The number written by the digits `s[from..to]`, or some number that,
/// like it, is not below `EXPONENT_CAP`.
fn read_magnitude(s: &[u8], from: usize, to: usize) -> (m: u128)
    requires
        from <= to <= s.len(),
        forall|i: int| from <= i < to ==> is_digit(#[trigger] s@[i]),
    ensures
        m == digits_value(s@.subrange(from as int, to as int)) || (m >= EXPONENT_CAP
            && digits_value(s@.subrange(from as int, to as int)) >= EXPONENT_CAP),
        m < 16 * EXPONENT_CAP,
{
    let ghost digits = s@.subrange(from as int, to as int);
    let mut m: u128 = 0;
    let mut i: usize = from;
    while i < to
        invariant
            from <= i <= to <= s.len(),
            digits == s@.subrange(from as int, to as int),
            forall|i: int| from <= i < to ==> is_digit(#[trigger] s@[i]),
            m == prefix_value(digits, (i - from) as nat) || (m >= EXPONENT_CAP && prefix_value(
                digits,
                (i - from) as nat,
            ) >= EXPONENT_CAP),
            m < 16 * EXPONENT_CAP,
        decreases to - i,
    {
        let digit: u8 = s[i] - ZERO;
        proof {
            assert(is_digit(s@[i as int]));
            assert(digits[i - from] == s@[i as int]);
            assert(digit_at(digits, i - from) == digit);
            assert(prefix_value(digits, (i - from + 1) as nat) == 10 * prefix_value(
                digits,
                (i - from) as nat,
            ) + digit);
        }
        if m < EXPONENT_CAP {
            m = m * 10 + digit as u128;
        }
        i += 1;
    }
    m
}

/// Whether the sign `negative` and the magnitude `magnitude` stand for the
/// exponent `exponent`: they are that number, or both lie past
/// `EXPONENT_CAP` on the same side of zero.
spec fn stands_for(negative: bool, magnitude: u128, exponent: int) -> bool {
    if negative {
        -magnitude == exponent || (magnitude >= EXPONENT_CAP && exponent <= -EXPONENT_CAP)
    } else {
        magnitude == exponent || (magnitude >= EXPONENT_CAP && exponent >= EXPONENT_CAP)
    }
}

/// Finds the digits of the mantissa at the start of `text`.
fn scan_mantissa(text: &[u8]) -> (r: (usize, usize, usize, usize))
    ensures
        r.0 == mantissa_of(text@).int_start,
        r.1 == mantissa_of(text@).int_end,
        r.2 == mantissa_of(text@).frac_start,
        r.3 == mantissa_of(text@).frac_end,
        r.0 <= r.1 <= r.2 <= r.3 <= text.len(),
        forall|i: int| r.0 <= i < r.1 ==> is_digit(#[trigger] text@[i]),
        forall|i: int| r.2 <= i < r.3 ==> is_digit(#[trigger] text@[i]),
{
    let n: usize = text.len();
    let int_start: usize = if n > 0 && text[0] == PLUS { 1 } else { 0 };
    let int_end: usize = scan_digits(text, int_start);
    if int_end < n && text[int_end] == POINT {
        let frac_end: usize = scan_digits(text, int_end + 1);
        (int_start, int_end, int_end + 1, frac_end)
    } else {
        (int_start, int_end, int_end, int_end)
    }
}

/// Reads the exponent that stands from index `from` to the end of `text`,
/// as a sign and a magnitude.
fn read_exponent(text: &[u8], from: usize) -> (r: Option<(bool, u128)>)
    requires
        from <= text.len(),
    ensures
        match exponent_of(text@, from as int) {
            Some(exponent) => r is Some && stands_for(r.unwrap().0, r.unwrap().1, exponent)
                && r.unwrap().1 < 16 * EXPONENT_CAP,
            None => r is None,
        },
{
    let n: usize = text.len();
    if from == n {
        assert(digits_value(Seq::<u8>::empty()) == 0);
        return Some((false, 0));
    }
    if text[from] != LOWER_E && text[from] != UPPER_E {
        return None;
    }
    let mut start: usize = from + 1;
    let mut negative: bool = false;
    if start < n && (text[start] == PLUS || text[start] == MINUS) {
        negative = text[start] == MINUS;
        start += 1;
    }
    if start >= n {
        return None;
    }
    let end: usize = scan_digits(text, start);
    if end != n {
        return None;
    }
    let magnitude: u128 = read_magnitude(text, start, n);
    Some((negative, magnitude))
}

/// The number written by the first `keep` digits of the mantissa, saturated.
/// The mantissa is made of `text[int_start..int_end]` and
/// `text[frac_start..frac_end]`; zeros stand in for the digits past its end.
fn mantissa_prefix(
    text: &[u8],
    int_start: usize,
    int_end: usize,
    frac_start: usize,
    frac_end: usize,
    keep: i128,
) -> (r: u32)
    requires
        int_start <= int_end <= frac_start <= frac_end <= text.len(),
        forall|i: int| int_start <= i < int_end ==> is_digit(#[trigger] text@[i]),
        forall|i: int| frac_start <= i < frac_end ==> is_digit(#[trigger] text@[i]),
    ensures
        r == saturate(
            prefix_value(
                text@.subrange(int_start as int, int_end as int) + text@.subrange(
                    frac_start as int,
                    frac_end as int,
                ),
                if keep >= 0 {
                    keep as nat
                } else {
                    0
                },
            ),
        ),
{
    let ghost digits = text@.subrange(int_start as int, int_end as int) + text@.subrange(
        frac_start as int,
        frac_end as int,
    );
    if keep <= 0 {
        return 0;
    }
    let int_len: usize = int_end - int_start;
    let total: usize = int_len + (frac_end - frac_start);
    let take: usize = if keep >= total as i128 { total } else { keep as usize };
    let take_int: usize = if take < int_len { take } else { int_len };
    let take_frac: usize = take - take_int;
    assert forall|i: int| int_start <= i < int_start + take_int implies is_digit(
        #[trigger] text@[i],
    ) && digit_at(digits, 0 + (i - int_start)) == text@[i] - ZERO by {
        assert(digits[i - int_start] == text@[i]);
    }
    let acc: u32 = fold_digits(text, int_start, int_start + take_int, 0, Ghost(digits), Ghost(0));
    assert forall|i: int| frac_start <= i < frac_start + take_frac implies is_digit(
        #[trigger] text@[i],
    ) && digit_at(digits, take_int + (i - frac_start)) == text@[i] - ZERO by {
        assert(take_int == int_len);
        assert(digits[int_len + (i - frac_start)] == text@[i]);
    }
    let acc: u32 = fold_digits(
        text,
        frac_start,
        frac_start + take_frac,
        acc,
        Ghost(digits),
        Ghost(take_int as nat),
    );
    if keep <= total as i128 {
        return acc;
    }
    let pad: usize = if keep >= total as i128 + 10 { 10 } else { (keep - total as i128) as usize };
    proof {
        if keep >= total + 10 {
            lemma_saturated_after_ten(digits, keep as nat);
        }
    }
    pad_zeros(acc, pad, Ghost(digits), Ghost(total as nat))
}

/// Decodes a decimal number into thousandths.
///
/// Returns `None` where `text` is not a decimal number, and else its value
/// multiplied by 1000, truncated, and saturated at `u32::MAX`.
pub fn read_decimal(text: &[u8]) -> (r: Option<u32>)
    ensures
        r == match parse_decimal(text@) {
            Some(d) => Some(saturate(milli_value(d))),
            None => None,
        },
{
    let (int_start, int_end, frac_start, frac_end) = scan_mantissa(text);
    if int_end == int_start && frac_end == frac_start {
        return None;
    }
    let (negative, magnitude) = match read_exponent(text, frac_end) {
        Some(exponent) => exponent,
        None => { return None; },
    };
    let int_len: usize = int_end - int_start;
    let keep: i128 = if negative {
        int_len as i128 + 3 - magnitude as i128
    } else {
        int_len as i128 + 3 + magnitude as i128
    };
    proof {
        let d = parse_decimal(text@).unwrap();
        let wanted: int = d.digits.len() + d.scale + 3;
        lemma_shift_is_prefix(d.digits, d.scale + 3);
        assert(keep == wanted || (keep <= 0 && wanted <= 0) || (keep >= d.digits.len() + 10
            && wanted >= d.digits.len() + 10));
        if wanted >= d.digits.len() + 10 {
            lemma_saturated_after_ten(d.digits, wanted as nat);
            lemma_saturated_after_ten(d.digits, keep as nat);
        }
    }
    Some(mantissa_prefix(text, int_start, int_end, frac_start, frac_end, keep))
}

/// Decodes one numeric field of a reply into milli-units.
///
/// `Ok(None)` is the meter's way of saying that it does not measure the
/// quantity at the moment: the field starts, after whitespace, with `-`.
pub fn to_milliunits(bytes: &[u8]) -> (r: Result<Option<u32>, HospError>)
    ensures
        r == field_milliunits(bytes@),
{
    let start: usize = skip_spaces(bytes);
    let text: &[u8] = vstd::slice::slice_subrange(bytes, start, bytes.len());
    assert(text@ == bytes@.skip(start as int));
    if text.len() > 0 && text[0] == MINUS {
        return Ok(None);
    }
    match read_decimal(text) {
        Some(value) => Ok(Some(value)),
        None => Err(HospError::Parse),
    }
}

} // verus!
