//! The error taxonomy shared by the grammar engine, the AST builders and
//! the bytecode compiler. Errors are values: every fallible operation
//! returns a result that the caller must inspect.
use vstd::prelude::*;

verus! {

/// An error raised while turning source text into an AST.
#[derive(Debug)]
pub enum ParserError {
    /// A malformed or unrecognized token or operand shape, including
    /// grammar-level failures with their position detail.
    SyntaxError(String),
    /// A parse-tree shape the builder has no case for; carries the
    /// offending rule tag.
    UnknownError(String),
}

/// The kind of a [`ParserError`], with the carried text abstracted away.
pub ghost enum ParseErrKind {
    Syntax,
    Unknown,
}

impl ParserError {
    pub open spec fn kind(&self) -> ParseErrKind {
        match self {
            ParserError::SyntaxError(_) => ParseErrKind::Syntax,
            ParserError::UnknownError(_) => ParseErrKind::Unknown,
        }
    }

    pub open spec fn text(&self) -> Seq<char> {
        match self {
            ParserError::SyntaxError(s) => s@,
            ParserError::UnknownError(s) => s@,
        }
    }

    /// The human-readable description carried by this error.
    pub fn describe(&self) -> (r: &str)
        ensures
            r@ == self.text(),
    {
        match self {
            ParserError::SyntaxError(s) => s.as_str(),
            ParserError::UnknownError(s) => s.as_str(),
        }
    }
}

/// An error raised while lowering an AST into bytecode.
#[derive(Debug)]
pub enum CompilerError {
    /// An AST shape the lowering pass cannot handle.
    CompileError(String),
}

impl CompilerError {
    pub open spec fn text(&self) -> Seq<char> {
        match self {
            CompilerError::CompileError(s) => s@,
        }
    }

    /// The human-readable description carried by this error.
    pub fn describe(&self) -> (r: &str)
        ensures
            r@ == self.text(),
    {
        match self {
            CompilerError::CompileError(s) => s.as_str(),
        }
    }
}

} // verus!
