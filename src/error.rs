use vstd::prelude::*;

verus! {

/// Every way in which encoding, parsing or evaluating a wire message can fail.
#[derive(Clone, Copy, Debug, PartialEq, Eq, Structural)]
pub enum WireError {
    /// A character to encode is not in the alphabet.
    UnsupportedCharacter,
    /// A payload byte lies outside the printable range 33..=126.
    PayloadOutOfRange,
    /// A word's indicator byte selects no node kind.
    UnknownIndicator,
    /// A unary or binary word names no known operator.
    UnknownOperator,
    /// A sub-expression was expected but the words ran out.
    UnexpectedEndOfInput,
    /// Words were left over after one complete expression.
    TrailingTokens,
    /// An operand has the wrong kind for its operator.
    TypeMismatch,
    /// A take or drop count is negative or exceeds the string's length.
    IndexOutOfRange,
    /// A free variable was used where a value was needed.
    UnboundVariable,
    /// Evaluation nested deeper than the allowed depth.
    EvaluationDepthExceeded,
    /// The divisor of a division or remainder is zero.
    DivisionByZero,
    /// A number does not fit in the 64-bit range the evaluator computes in.
    IntegerOverflow,
}

} // verus!
