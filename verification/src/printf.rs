use vstd::prelude::*;
use sprintf::{Printf, PrintfError};

verus! {

#[verifier::external_type_specification]
#[verifier::external_body]
pub struct ExPrintfError(PrintfError);

/// What `sprintf::vsprintf` makes of the format with a `u32` and a `u8`
/// argument, in that order: the text, or nothing when it fails.
pub uninterp spec fn printf_text(format: Seq<char>, prefix: u32, index: u8) -> Option<Seq<char>>;

/// Whether the character is an ASCII digit.
pub open spec fn is_ascii_digit(c: char) -> bool {
    '0' <= c && c <= '9'
}

/// The value of an ASCII digit.
pub open spec fn ascii_digit_value(c: char) -> int {
    c as int - '0' as int
}

/// Whether the character is a flag of a conversion: `#`, `0`, `-`, space or `+`.
pub open spec fn is_printf_flag(c: char) -> bool {
    c == '#' || c == '0' || c == '-' || c == ' ' || c == '+'
}

/// Whether the character ends a conversion (its type, or `%`).
pub open spec fn is_printf_conversion(c: char) -> bool {
    c == 'i' || c == 'd' || c == 'u' || c == 'o' || c == 'x' || c == 'X' || c == 'e' || c == 'E'
        || c == 'f' || c == 'F' || c == 'g' || c == 'G' || c == 'c' || c == 'C' || c == 's' || c == 'S'
        || c == 'p' || c == '%'
}

/// The position after the flags that start at `i`.
pub open spec fn skip_flags(s: Seq<char>, i: int) -> int
    decreases s.len() - i,
{
    if 0 <= i < s.len() && is_printf_flag(s[i]) {
        skip_flags(s, i + 1)
    } else {
        i
    }
}

/// The position after the ASCII digits that start at `i`.
pub open spec fn digits_end(s: Seq<char>, i: int) -> int
    decreases s.len() - i,
{
    if 0 <= i < s.len() && is_ascii_digit(s[i]) {
        digits_end(s, i + 1)
    } else {
        i
    }
}

/// The number that the digits from `i` up to `j` write.
pub open spec fn digits_value(s: Seq<char>, i: int, j: int) -> int
    decreases j - i,
{
    if j <= i {
        0
    } else {
        digits_value(s, i, j - 1) * 10 + ascii_digit_value(s[j - 1])
    }
}

/// The position after a width or precision that starts at `i`: `*`, a run
/// of digits, or nothing.
pub open spec fn param_end(s: Seq<char>, i: int) -> int {
    if 0 <= i < s.len() && s[i] == '*' {
        i + 1
    } else {
        digits_end(s, i)
    }
}

/// Whether a width or precision written at `i` is a number above `i32::MAX`.
pub open spec fn param_overflows(s: Seq<char>, i: int) -> bool {
    0 <= i < s.len() && is_ascii_digit(s[i]) && digits_value(s, i, digits_end(s, i)) > i32::MAX
}

/// The position after a length modifier at `i` (`hh`, `h`, `ll`, `l`, `q`,
/// `L`, `j`, `z`, `Z`, `t`; at most one), or `i` without one.
pub open spec fn skip_length(s: Seq<char>, i: int) -> int {
    if 0 <= i && i + 1 < s.len() && s[i] == 'h' && s[i + 1] == 'h' {
        i + 2
    } else if 0 <= i && i + 1 < s.len() && s[i] == 'l' && s[i + 1] == 'l' {
        i + 2
    } else if 0 <= i < s.len() && (s[i] == 'h' || s[i] == 'l' || s[i] == 'q' || s[i] == 'L' || s[i] == 'j'
        || s[i] == 'z' || s[i] == 'Z' || s[i] == 't') {
        i + 1
    } else {
        i
    }
}

/// Where the width of a conversion whose `%` stands before `i` starts.
pub open spec fn width_start(s: Seq<char>, i: int) -> int {
    skip_flags(s, i)
}

/// Whether a precision follows the width.
pub open spec fn has_precision(s: Seq<char>, i: int) -> bool {
    let w = param_end(s, width_start(s, i));
    0 <= w < s.len() && s[w] == '.'
}

/// Where the precision starts (meaningful with `has_precision`).
pub open spec fn precision_start(s: Seq<char>, i: int) -> int {
    param_end(s, width_start(s, i)) + 1
}

/// Where the conversion type stands.
pub open spec fn conversion_at(s: Seq<char>, i: int) -> int {
    let p = if has_precision(s, i) { param_end(s, precision_start(s, i)) } else { param_end(s, width_start(s, i)) };
    skip_length(s, p)
}

/// Whether reading the format from `i` on, as `sprintf` parses it, meets a
/// width or precision above `i32::MAX`: text is copied, each `%` starts a
/// conversion (flags, width, precision, length, type), and the parse stops
/// at the first malformed conversion.
pub open spec fn printf_overflows_from(s: Seq<char>, i: int) -> bool
    decreases s.len() - i,
{
    if i < 0 || i >= s.len() {
        false
    } else if s[i] != '%' {
        printf_overflows_from(s, i + 1)
    } else if param_overflows(s, width_start(s, i + 1))
        || (has_precision(s, i + 1) && param_overflows(s, precision_start(s, i + 1))) {
        true
    } else {
        let c = conversion_at(s, i + 1);
        if 0 <= c < s.len() && is_printf_conversion(s[c]) && c + 1 > i {
            printf_overflows_from(s, c + 1)
        } else {
            false
        }
    }
}

/// The format can be handed to `sprintf`: no width or precision in it is
/// larger than `i32::MAX`.
pub open spec fn printf_safe(s: Seq<char>) -> bool {
    !printf_overflows_from(s, 0)
}

/// Ten to the power `n`.
pub open spec fn pow10(n: nat) -> int
    decreases n,
{
    if n == 0 { 1 } else { 10 * pow10((n - 1) as nat) }
}

proof fn lemma_digits_value_bound(s: Seq<char>, i: int, j: int)
    requires
        0 <= i <= j <= s.len(),
        forall|k: int| i <= k < j ==> is_ascii_digit(#[trigger] s[k]),
    ensures
        0 <= digits_value(s, i, j) < pow10((j - i) as nat),
    decreases j - i,
{
    if j > i {
        lemma_digits_value_bound(s, i, j - 1);
        assert(is_ascii_digit(s[j - 1]));
        assert(pow10((j - i) as nat) == 10 * pow10((j - 1 - i) as nat));
    }
}

proof fn lemma_digits_end_digits(s: Seq<char>, i: int)
    requires
        0 <= i <= s.len(),
    ensures
        i <= digits_end(s, i) <= s.len(),
        forall|k: int| i <= k < digits_end(s, i) ==> is_ascii_digit(#[trigger] s[k]),
    decreases s.len() - i,
{
    if i < s.len() && is_ascii_digit(s[i]) {
        lemma_digits_end_digits(s, i + 1);
    }
}

/// Whether no run of ASCII digits in the text is longer than nine.
pub open spec fn short_digit_runs(s: Seq<char>) -> bool {
    forall|i: int| 0 <= i <= s.len() ==> #[trigger] digits_end(s, i) - i <= 9
}

proof fn lemma_short_param_fits(s: Seq<char>, i: int)
    requires
        short_digit_runs(s),
    ensures
        !param_overflows(s, i),
{
    if 0 <= i < s.len() && is_ascii_digit(s[i]) {
        lemma_digits_end_digits(s, i);
        let e = digits_end(s, i);
        assert(e - i <= 9);
        lemma_digits_value_bound(s, i, e);
        lemma_pow10_monotone((e - i) as nat, 9);
        assert(pow10(9) == 1_000_000_000) by {
            reveal_with_fuel(pow10, 10);
        }
    }
}

proof fn lemma_pow10_monotone(a: nat, b: nat)
    requires
        a <= b,
    ensures
        pow10(a) <= pow10(b),
        pow10(a) >= 1,
    decreases b,
{
    if a < b {
        lemma_pow10_monotone(a, (b - 1) as nat);
    } else if a > 0 {
        lemma_pow10_monotone((a - 1) as nat, (a - 1) as nat);
    }
}

proof fn lemma_short_runs_from(s: Seq<char>, i: int)
    requires
        short_digit_runs(s),
    ensures
        !printf_overflows_from(s, i),
    decreases s.len() - i,
{
    if 0 <= i < s.len() {
        if s[i] != '%' {
            lemma_short_runs_from(s, i + 1);
        } else {
            lemma_short_param_fits(s, width_start(s, i + 1));
            lemma_short_param_fits(s, precision_start(s, i + 1));
            let c = conversion_at(s, i + 1);
            if 0 <= c < s.len() && is_printf_conversion(s[c]) && c + 1 > i {
                lemma_short_runs_from(s, c + 1);
            }
        }
    }
}

/// A format in which no run of digits is longer than nine can always be
/// handed to `sprintf`, and so can a format without any `%`: only a width or
/// precision of ten digits or more can be too large.
pub proof fn lemma_short_numbers_are_safe(s: Seq<char>)
    ensures
        short_digit_runs(s) ==> printf_safe(s),
        (forall|i: int| 0 <= i < s.len() ==> #[trigger] s[i] != '%') ==> printf_safe(s),
{
    if short_digit_runs(s) {
        lemma_short_runs_from(s, 0);
    }
    if forall|i: int| 0 <= i < s.len() ==> #[trigger] s[i] != '%' {
        lemma_no_percent_from(s, 0);
    }
}

proof fn lemma_no_percent_from(s: Seq<char>, i: int)
    requires
        forall|k: int| 0 <= k < s.len() ==> #[trigger] s[k] != '%',
    ensures
        !printf_overflows_from(s, i),
    decreases s.len() - i,
{
    if 0 <= i < s.len() {
        assert(s[i] != '%');
        lemma_no_percent_from(s, i + 1);
    }
}

/// A width written right after `%` that is larger than `i32::MAX` makes a
/// format unusable for `sprintf`.
pub proof fn lemma_large_width_is_unsafe(s: Seq<char>)
    requires
        s.len() > 1,
        s[0] == '%',
        '1' <= s[1] && s[1] <= '9',
        digits_value(s, 1, digits_end(s, 1)) > i32::MAX,
    ensures
        !printf_safe(s),
{
    assert(skip_flags(s, 1) == 1);
}

/// Formats a printf-style format string with a `u32` and a `u8` argument
/// (`sprintf::vsprintf`). The contract says only that the result is a
/// function of the three inputs, named `printf_text`: the formatting rules
/// of C's printf that the crate follows are not restated. The crate reads
/// each width or precision written in the format into an `i32`, ten times
/// the value so far plus the next digit; a number above `i32::MAX` overflows
/// it, which panics where overflow checks are on, so formats with such a
/// number (`printf_safe`) are not admitted.
#[verifier::external_body]
pub(crate) fn format_domain(format: &str, prefix: u32, index: u8) -> (r: Result<String, PrintfError>)
    requires
        printf_safe(format@),
    ensures
        match r {
            Ok(s) => printf_text(format@, prefix, index) == Some(s@),
            Err(_) => printf_text(format@, prefix, index) is None,
        },
{
    sprintf::vsprintf(format, &[&prefix as &dyn Printf, &index as &dyn Printf])
}

} // verus!
