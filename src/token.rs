use vstd::prelude::*;

verus! {

/// The kind of the lexical unit under the cursor.
#[derive(Debug, Clone, Copy, PartialEq, Eq, Structural)]
pub enum TokenType {
    Number,
    Add,
    Sub,
    Mul,
    Div,
    LeftParen,
    RightParen,
    End,
    /// The state before the first token has been scanned.
    Unset,
}

/// Why an evaluation stopped.
#[derive(Debug, Clone, Copy, PartialEq, Eq, Structural)]
pub enum CalcError {
    /// A character that begins no token.
    UnknownToken(char),
    /// A unary minus followed by neither a number nor `(`.
    UnaryMinusOperand,
    /// An opening parenthesis without its closing one.
    MissingCloseParen,
    /// A token that cannot start a primary expression.
    IllegalPrimary,
    /// The right operand of `/` is zero.
    DivisionByZero,
    /// Tokens remain after a complete expression.
    TrailingInput,
    /// A literal or an intermediate value does not fit in an `i32`.
    Overflow,
}

/// The lookahead state that the grammar threads through: the current token,
/// its value (for a number) and the index just past it.
pub struct Look {
    pub tok: TokenType,
    pub val: int,
    pub pos: int,
}

} // verus!
