use vstd::prelude::*;

verus! {

/// Why reading or evaluating an expression failed.
#[derive(Clone, Copy, Debug, PartialEq, Eq)]
pub enum LispError {
    /// An atom stands before any opening parenthesis.
    MalformedInput,
    /// A symbol in operator position is not in the operator table.
    UnknownOperator,
    /// An operand or a top-level element has a shape that cannot be evaluated,
    /// or two values of different kinds were combined.
    UnsupportedOperand,
    /// A token that looks numeric is not a number that fits its kind.
    NumericParseFailure,
    /// An integer sum or difference leaves the 32-bit signed range.
    Overflow,
}

} // verus!
