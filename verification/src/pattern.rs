use regex::Regex;
use vstd::prelude::*;

verus! {

/// The pattern by which a token is taken for an integer.
pub const INT_PATTERN: &'static str = "[0-9]+";

/// The pattern by which a token is taken for a floating-point number.
pub const FLOAT_PATTERN: &'static str = "[0-9]*[.]{1}[0-9]*";

/// Whether `c` is one of the ten ASCII digits.
pub open spec fn is_digit(c: char) -> bool {
    '0' <= c <= '9'
}

/// Whether some character of `text` is an ASCII digit.
pub open spec fn has_digit(text: Seq<char>) -> bool {
    exists|i: int| 0 <= i < text.len() && is_digit(#[trigger] text[i])
}

/// Whether some character of `text` is a decimal point.
pub open spec fn has_point(text: Seq<char>) -> bool {
    exists|i: int| 0 <= i < text.len() && #[trigger] text[i] == '.'
}

/// `regex::Error`: why a pattern did not compile. Nothing is read from it.
#[verifier::external_type_specification]
#[verifier::external_body]
pub struct ExRegexError(regex::Error);

/// `regex::Regex::new(pattern)`, then `Regex::is_match(text)` on what it
/// compiled: whether `pattern` matches anywhere in `text`, or the error where
/// `pattern` does not compile. Trusted, of the two patterns of this library:
/// both compile; a digit class repeated once or more matches somewhere exactly
/// in the texts that hold a digit, and a point between two digit runs that may
/// be empty exactly in the texts that hold a point.
#[verifier::external_body]
pub(crate) fn search(pattern: &str, text: &str) -> (found: Result<bool, regex::Error>)
    ensures
        pattern@ == INT_PATTERN@ ==> found is Ok && found->Ok_0 == has_digit(text@),
        pattern@ == FLOAT_PATTERN@ ==> found is Ok && found->Ok_0 == has_point(text@),
{
    match Regex::new(pattern) {
        Ok(compiled) => Ok(compiled.is_match(text)),
        Err(error) => Err(error),
    }
}

} // verus!
