//! The error taxonomy of the library.  Every failure is a reportable value
//! carrying the minimal diagnostic context: the offending fragment, the
//! missing path segment, or the engine's reported message.

use vstd::prelude::*;

verus! {

/// Mathematical model of an error: its kind and its diagnostic text.
pub enum ErrorModel {
    Syntax(Seq<char>),
    Path(Seq<char>),
    NotCallable(Seq<char>),
    Compile(Seq<char>),
    Runtime(Seq<char>),
    Conversion(Seq<char>),
}

#[derive(Debug, Clone, PartialEq)]
pub enum BluefoxError {
    /// A fragment could not be assigned a place in a record (a missing `:`).
    SyntaxError(String),
    /// A path segment did not resolve to a member.
    PathError(String),
    /// A resolved member is not invocable.
    NotCallableError(String),
    /// Function source failed to compile in the engine.
    CompileError(String),
    /// The invoked script raised during execution.
    RuntimeError(String),
    /// An engine value has no representable mapping in the data model.
    ConversionError(String),
}

impl BluefoxError {
    pub open spec fn view(&self) -> ErrorModel {
        match self {
            BluefoxError::SyntaxError(m) => ErrorModel::Syntax(m@),
            BluefoxError::PathError(m) => ErrorModel::Path(m@),
            BluefoxError::NotCallableError(m) => ErrorModel::NotCallable(m@),
            BluefoxError::CompileError(m) => ErrorModel::Compile(m@),
            BluefoxError::RuntimeError(m) => ErrorModel::Runtime(m@),
            BluefoxError::ConversionError(m) => ErrorModel::Conversion(m@),
        }
    }

    /// The diagnostic text of the error.
    pub fn message(&self) -> (r: &String)
        ensures
            match self@ {
                ErrorModel::Syntax(m) => r@ == m,
                ErrorModel::Path(m) => r@ == m,
                ErrorModel::NotCallable(m) => r@ == m,
                ErrorModel::Compile(m) => r@ == m,
                ErrorModel::Runtime(m) => r@ == m,
                ErrorModel::Conversion(m) => r@ == m,
            },
    {
        match self {
            BluefoxError::SyntaxError(m) => m,
            BluefoxError::PathError(m) => m,
            BluefoxError::NotCallableError(m) => m,
            BluefoxError::CompileError(m) => m,
            BluefoxError::RuntimeError(m) => m,
            BluefoxError::ConversionError(m) => m,
        }
    }
}

} // verus!
