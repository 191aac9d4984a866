//! Error types for the reader and the evaluator.
//!
//! Parse errors are produced by the lexer and the reader; runtime errors by
//! the evaluator and the builtin callables. Every failure is a returned
//! value: no component aborts.

use vstd::prelude::*;

verus! {

/// A failure of the lexer or of the reader. All variants are recoverable:
/// a parse error on one line leaves every other structure untouched.
#[derive(Clone, Copy, Debug, PartialEq, Eq, Structural)]
pub enum ParseError {
    /// End of input is reached before a terminating double-quote is found.
    UnbalancedString,
    /// End of input is reached before the `)` closing a list.
    UnbalancedParens,
    /// End of input is reached before the `]` closing a vector.
    UnbalancedSquareBrackets,
    /// End of input is reached before the `}` closing a map.
    UnbalancedCurlyBrackets,
    /// A bare `)` where a form was expected.
    UnexpectedCloseParen,
    /// A bare `]` where a form was expected.
    UnexpectedCloseSquareBracket,
    /// A bare `}` where a form was expected.
    UnexpectedCloseCurlyBracket,
    /// A compound value used as a key in a map.
    UnexpectedCompound,
    /// A map key with no corresponding value before the closing `}`.
    KeyWithoutValue,
    /// End of input is reached where a form was expected.
    MissingForm,
}

impl ParseError {
    /// The human-readable description of this error.
    pub fn message(&self) -> (r: &'static str)
        ensures
            r@ == self.message_spec(),
    {
        match self {
            ParseError::UnbalancedString => "unbalanced string",
            ParseError::UnbalancedParens => "unbalanced parens",
            ParseError::UnbalancedSquareBrackets => "unbalanced square brackets",
            ParseError::UnbalancedCurlyBrackets => "unbalanced curly brackets",
            ParseError::UnexpectedCloseParen => "unexpected close paren",
            ParseError::UnexpectedCloseSquareBracket => "unexpected close square bracket",
            ParseError::UnexpectedCloseCurlyBracket => "unexpected close curly bracket",
            ParseError::UnexpectedCompound => "compound value used as a key in a map",
            ParseError::KeyWithoutValue => "found key without corresponding value",
            ParseError::MissingForm => "reached EOF while searching for form",
        }
    }

    /// What `message` returns, for use in contracts.
    pub open spec fn message_spec(&self) -> Seq<char> {
        match self {
            ParseError::UnbalancedString => "unbalanced string"@,
            ParseError::UnbalancedParens => "unbalanced parens"@,
            ParseError::UnbalancedSquareBrackets => "unbalanced square brackets"@,
            ParseError::UnbalancedCurlyBrackets => "unbalanced curly brackets"@,
            ParseError::UnexpectedCloseParen => "unexpected close paren"@,
            ParseError::UnexpectedCloseSquareBracket => "unexpected close square bracket"@,
            ParseError::UnexpectedCloseCurlyBracket => "unexpected close curly bracket"@,
            ParseError::UnexpectedCompound => "compound value used as a key in a map"@,
            ParseError::KeyWithoutValue => "found key without corresponding value"@,
            ParseError::MissingForm => "reached EOF while searching for form"@,
        }
    }
}

/// A failure of the evaluator or of a builtin callable. Builtins signal a
/// typed failure on a bad call instead of aborting the process.
#[derive(Clone, Debug)]
pub enum RuntimeError {
    /// A symbol was not found in the environment; carries the symbol's name.
    UnboundSymbol(String),
    /// The head of an evaluated list is not a callable value.
    NotCallable,
    /// A builtin was applied to the wrong number of arguments.
    WrongArgumentCount,
    /// A builtin was applied to arguments of the wrong type.
    WrongArgumentType,
    /// A division by zero.
    DivisionByZero,
    /// An arithmetic result outside the signed 64-bit range.
    Overflow,
}

impl RuntimeError {
    /// Structural equality, usable in contracts through its result.
    pub fn same_as(&self, other: &RuntimeError) -> (r: bool)
        ensures
            r == (self.view_err() == other.view_err()),
    {
        match (self, other) {
            (RuntimeError::UnboundSymbol(a), RuntimeError::UnboundSymbol(b)) => *a == *b,
            (RuntimeError::NotCallable, RuntimeError::NotCallable) => true,
            (RuntimeError::WrongArgumentCount, RuntimeError::WrongArgumentCount) => true,
            (RuntimeError::WrongArgumentType, RuntimeError::WrongArgumentType) => true,
            (RuntimeError::DivisionByZero, RuntimeError::DivisionByZero) => true,
            (RuntimeError::Overflow, RuntimeError::Overflow) => true,
            _ => false,
        }
    }

    /// The mathematical value of this error.
    pub open spec fn view_err(&self) -> ErrVal {
        match self {
            RuntimeError::UnboundSymbol(s) => ErrVal::UnboundSymbol(s@),
            RuntimeError::NotCallable => ErrVal::NotCallable,
            RuntimeError::WrongArgumentCount => ErrVal::WrongArgumentCount,
            RuntimeError::WrongArgumentType => ErrVal::WrongArgumentType,
            RuntimeError::DivisionByZero => ErrVal::DivisionByZero,
            RuntimeError::Overflow => ErrVal::Overflow,
        }
    }
}

/// The mathematical model of a `RuntimeError`.
pub enum ErrVal {
    UnboundSymbol(Seq<char>),
    NotCallable,
    WrongArgumentCount,
    WrongArgumentType,
    DivisionByZero,
    Overflow,
}

} // verus!
