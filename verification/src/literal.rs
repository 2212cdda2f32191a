use crate::pattern::is_digit;
use crate::text::chars_of;
use vstd::prelude::*;

verus! {

/// Whether `c` is a plus or a minus sign.
pub open spec fn is_sign(c: char) -> bool {
    c == '+' || c == '-'
}

/// The number that the digit `c` stands for.
pub open spec fn digit_value(c: char) -> int {
    c as int - '0' as int
}

/// Whether every character of `text` is an ASCII digit.
pub open spec fn all_digits(text: Seq<char>) -> bool {
    forall|i: int| 0 <= i < text.len() ==> is_digit(#[trigger] text[i])
}

/// Whether `text` is one digit or more and nothing else.
pub open spec fn is_digit_run(text: Seq<char>) -> bool {
    text.len() > 0 && all_digits(text)
}

/// The number that a run of digits denotes in base ten; the empty run denotes 0.
pub open spec fn decimal_value(digits: Seq<char>) -> int
    decreases digits.len(),
{
    if digits.len() == 0 {
        0
    } else {
        decimal_value(digits.drop_last()) * 10 + digit_value(digits.last())
    }
}

/// The part of `text` behind its leading sign, or all of it where it has none.
pub open spec fn unsigned_part(text: Seq<char>) -> Seq<char> {
    if text.len() > 0 && is_sign(text[0]) {
        text.skip(1)
    } else {
        text
    }
}

/// The number written by `text` before any range is applied: an optional sign
/// and then one digit or more, nothing else.
pub open spec fn signed_decimal(text: Seq<char>) -> Option<int> {
    let digits = unsigned_part(text);
    if digits.len() > 0 && all_digits(digits) {
        if text[0] == '-' {
            Some(-decimal_value(digits))
        } else {
            Some(decimal_value(digits))
        }
    } else {
        None
    }
}

/// The 32-bit signed integer that `text` writes, if it writes one.
pub open spec fn int_literal(text: Seq<char>) -> Option<int> {
    match signed_decimal(text) {
        Some(n) => if i32::MIN <= n <= i32::MAX {
            Some(n)
        } else {
            None
        },
        None => None,
    }
}

/// The index behind the longest run of digits that starts at `from`.
pub open spec fn run_end(text: Seq<char>, from: int) -> int
    decreases text.len() - from,
{
    if 0 <= from < text.len() && is_digit(text[from]) {
        run_end(text, from + 1)
    } else {
        from
    }
}

/// Whether `c` is the letter `lower`, in either case.
pub open spec fn is_letter(c: char, lower: char, upper: char) -> bool {
    c == lower || c == upper
}

/// Whether `text` spells `inf`, `infinity` or `nan`, in any mix of cases.
pub open spec fn is_special_float(text: Seq<char>) -> bool {
    ||| text.len() == 3 && is_letter(text[0], 'i', 'I') && is_letter(text[1], 'n', 'N')
        && is_letter(text[2], 'f', 'F')
    ||| text.len() == 3 && is_letter(text[0], 'n', 'N') && is_letter(text[1], 'a', 'A')
        && is_letter(text[2], 'n', 'N')
    ||| text.len() == 8 && is_letter(text[0], 'i', 'I') && is_letter(text[1], 'n', 'N')
        && is_letter(text[2], 'f', 'F') && is_letter(text[3], 'i', 'I') && is_letter(
        text[4],
        'n',
        'N',
    ) && is_letter(text[5], 'i', 'I') && is_letter(text[6], 't', 'T') && is_letter(
        text[7],
        'y',
        'Y',
    )
}

/// Whether `text[from..]` is an exponent: `e` or `E`, an optional sign, and
/// then digits to the end, one at least.
pub open spec fn is_exponent(text: Seq<char>, from: int) -> bool {
    &&& 0 <= from < text.len()
    &&& is_letter(text[from], 'e', 'E')
    &&& {
        let digits = if from + 1 < text.len() && is_sign(text[from + 1]) {
            from + 2
        } else {
            from + 1
        };
        digits < text.len() && run_end(text, digits) == text.len()
    }
}

/// Whether `text[from..]` is a decimal number: digits, optionally a point and
/// more digits, with a digit on one side of the point at least, and optionally
/// an exponent.
pub open spec fn is_decimal_number(text: Seq<char>, from: int) -> bool {
    let point = run_end(text, from);
    let pointed = point < text.len() && text[point] == '.';
    let end = if pointed {
        run_end(text, point + 1)
    } else {
        point
    };
    let digits = if pointed {
        end - from - 1
    } else {
        end - from
    };
    digits > 0 && (end == text.len() || is_exponent(text, end))
}

/// Whether `text` writes a floating-point number: an optional sign, and then
/// `inf`, `infinity`, `nan` or a decimal number.
pub open spec fn is_float_literal(text: Seq<char>) -> bool {
    let from: int = if text.len() > 0 && is_sign(text[0]) {
        1
    } else {
        0
    };
    is_special_float(text.skip(from)) || is_decimal_number(text, from)
}

/// A run of digits is worth at least as much as any of its prefixes, and no
/// digit run is negative.
pub proof fn lemma_decimal_value_grows(digits: Seq<char>, shorter: int)
    requires
        all_digits(digits),
        0 <= shorter <= digits.len(),
    ensures
        0 <= decimal_value(digits.take(shorter)) <= decimal_value(digits),
    decreases digits.len() - shorter,
{
    if shorter == digits.len() {
        assert(digits.take(shorter) == digits);
        lemma_decimal_value_nonnegative(digits);
    } else {
        lemma_decimal_value_grows(digits, shorter + 1);
        let longer = digits.take(shorter + 1);
        assert(longer.drop_last() == digits.take(shorter));
        assert(is_digit(digits[shorter]));
        lemma_decimal_value_nonnegative(digits.take(shorter));
    }
}

/// No digit run is negative.
pub proof fn lemma_decimal_value_nonnegative(digits: Seq<char>)
    requires
        all_digits(digits),
    ensures
        0 <= decimal_value(digits),
    decreases digits.len(),
{
    if digits.len() > 0 {
        lemma_decimal_value_nonnegative(digits.drop_last());
        assert(is_digit(digits[digits.len() - 1]));
    }
}

/// A run of digits that ends at `stop` is skipped as far as `stop`.
pub proof fn lemma_run_end(text: Seq<char>, from: int, stop: int)
    requires
        0 <= from <= stop <= text.len(),
        forall|i: int| from <= i < stop ==> is_digit(#[trigger] text[i]),
        stop < text.len() ==> !is_digit(text[stop]),
    ensures
        run_end(text, from) == stop,
    decreases stop - from,
{
    if from < stop {
        assert(is_digit(text[from]));
        lemma_run_end(text, from + 1, stop);
    }
}

/// Whether `text` is digits with one decimal point among them: before them,
/// between them or behind them.
pub open spec fn is_plain_decimal(text: Seq<char>) -> bool {
    exists|point: int|
        0 <= point < text.len() && text.len() >= 2 && #[trigger] text[point] == '.' && forall|
            i: int,
        |
            0 <= i < text.len() && i != point ==> is_digit(#[trigger] text[i])
}

/// Digits with one decimal point among them write a floating-point number.
pub proof fn lemma_plain_decimal_is_float(text: Seq<char>)
    requires
        is_plain_decimal(text),
    ensures
        is_float_literal(text),
{
    let point = choose|point: int|
        0 <= point < text.len() && text.len() >= 2 && #[trigger] text[point] == '.' && forall|
            i: int,
        |
            0 <= i < text.len() && i != point ==> is_digit(#[trigger] text[i]);
    if point > 0 {
        assert(is_digit(text[0]));
    }
    lemma_run_end(text, 0, point);
    lemma_run_end(text, point + 1, text.len() as int);
}

/// Whether `c` is one of the ten ASCII digits.
pub fn digit(c: char) -> (yes: bool)
    ensures
        yes == is_digit(c),
{
    '0' <= c && c <= '9'
}

/// The index behind the run of digits that starts at `from`.
pub fn skip_digits(text: &Vec<char>, from: usize) -> (end: usize)
    requires
        from <= text.len(),
    ensures
        end == run_end(text@, from as int),
        from <= end <= text.len(),
        forall|i: int| from <= i < end ==> is_digit(#[trigger] text@[i]),
        end < text.len() ==> !is_digit(text@[end as int]),
{
    let mut end: usize = from;
    while end < text.len() && digit(text[end])
        invariant
            from <= end <= text.len(),
            run_end(text@, from as int) == run_end(text@, end as int),
            forall|i: int| from <= i < end ==> is_digit(#[trigger] text@[i]),
        decreases text.len() - end,
    {
        end += 1;
    }
    end
}

/// Whether `text` is one digit or more and nothing else.
pub fn digit_run(text: &str) -> (yes: bool)
    ensures
        yes == is_digit_run(text@),
{
    let chars = chars_of(text);
    chars.len() > 0 && skip_digits(&chars, 0) == chars.len()
}

/// A run of digits writes the integer that its digits denote, where that is
/// a 32-bit signed integer, and no integer otherwise.
pub proof fn lemma_digit_run_literal(text: Seq<char>)
    requires
        is_digit_run(text),
    ensures
        0 <= decimal_value(text),
        int_literal(text) == if decimal_value(text) <= i32::MAX {
            Some(decimal_value(text))
        } else {
            None
        },
{
    assert(is_digit(text[0]));
    assert(unsigned_part(text) == text);
    lemma_decimal_value_nonnegative(text);
}

/// Reads `text` as a 32-bit signed integer in base ten.
pub fn parse_int(text: &Vec<char>) -> (number: Option<i32>)
    ensures
        int_literal(text@) == (match number {
            Some(n) => Some(n as int),
            None => None,
        }),
{
    let len = text.len();
    let negative = len > 0 && text[0] == '-';
    let start: usize = if len > 0 && (text[0] == '+' || text[0] == '-') {
        1
    } else {
        0
    };
    if start == len {
        return None;
    }
    let ghost digits = unsigned_part(text@);
    let mut i: usize = start;
    let mut total: i64 = 0;
    while i < len
        invariant
            start <= i <= len == text.len(),
            digits == text@.skip(start as int),
            digits == unsigned_part(text@),
            forall|k: int| 0 <= k < i - start ==> is_digit(#[trigger] digits[k]),
            total == decimal_value(digits.take(i - start)),
            0 <= total <= 2147483648,
        decreases len - i,
    {
        let c = text[i];
        if !digit(c) {
            assert(!is_digit(digits[i - start]));
            return None;
        }
        let ghost shorter = digits.take(i - start);
        let ghost longer = digits.take(i + 1 - start);
        assert(longer.drop_last() == shorter);
        assert(longer.last() == c);
        total = total * 10 + (c as u32 - '0' as u32) as i64;
        if total > 2147483648 {
            proof {
                if all_digits(digits) {
                    lemma_decimal_value_grows(digits, i + 1 - start);
                }
            }
            return None;
        }
        i += 1;
    }
    assert(digits.take(len - start) == digits);
    if negative {
        Some((-total) as i32)
    } else if total <= 2147483647 {
        Some(total as i32)
    } else {
        None
    }
}

/// Whether `c` is `lower` or `upper`.
fn letter(c: char, lower: char, upper: char) -> (yes: bool)
    ensures
        yes == is_letter(c, lower, upper),
{
    c == lower || c == upper
}

/// Whether `text[from..]` spells `inf`, `infinity` or `nan`.
fn special_float(text: &Vec<char>, from: usize) -> (yes: bool)
    requires
        from <= text.len(),
    ensures
        yes == is_special_float(text@.skip(from as int)),
{
    let len = text.len() - from;
    let ghost rest = text@.skip(from as int);
    if len == 3 {
        assert(rest[0] == text@[from + 0] && rest[1] == text@[from + 1] && rest[2] == text@[from
            + 2]);
        (letter(text[from], 'i', 'I') && letter(text[from + 1], 'n', 'N') && letter(
            text[from + 2],
            'f',
            'F',
        )) || (letter(text[from], 'n', 'N') && letter(text[from + 1], 'a', 'A') && letter(
            text[from + 2],
            'n',
            'N',
        ))
    } else if len == 8 {
        assert(forall|k: int| 0 <= k < 8 ==> rest[k] == text@[from + k]);
        letter(text[from], 'i', 'I') && letter(text[from + 1], 'n', 'N') && letter(
            text[from + 2],
            'f',
            'F',
        ) && letter(text[from + 3], 'i', 'I') && letter(text[from + 4], 'n', 'N') && letter(
            text[from + 5],
            'i',
            'I',
        ) && letter(text[from + 6], 't', 'T') && letter(text[from + 7], 'y', 'Y')
    } else {
        false
    }
}

/// Whether `text[from..]` is an exponent.
fn exponent(text: &Vec<char>, from: usize) -> (yes: bool)
    requires
        from < text.len(),
    ensures
        yes == is_exponent(text@, from as int),
{
    if !letter(text[from], 'e', 'E') {
        return false;
    }
    let digits: usize = if from + 1 < text.len() && (text[from + 1] == '+' || text[from + 1]
        == '-') {
        from + 2
    } else {
        from + 1
    };
    digits < text.len() && skip_digits(text, digits) == text.len()
}

/// Whether `text` writes a floating-point number.
pub fn float_literal(text: &Vec<char>) -> (yes: bool)
    ensures
        yes == is_float_literal(text@),
{
    let from: usize = if text.len() > 0 && (text[0] == '+' || text[0] == '-') {
        1
    } else {
        0
    };
    if special_float(text, from) {
        return true;
    }
    let point = skip_digits(text, from);
    let pointed = point < text.len() && text[point] == '.';
    let end = if pointed {
        skip_digits(text, point + 1)
    } else {
        point
    };
    let digits = if pointed {
        end - from - 1
    } else {
        end - from
    };
    digits > 0 && (end == text.len() || exponent(text, end))
}

} // verus!
