//! The errors of iterator operations, and how PHP sees them.
use vstd::prelude::*;

verus! {

/// The exception code of a moved or consumed iterator.
pub const CONSUMED_CODE: i32 = 1;

/// The exception code of an invalid argument.
pub const ARGUMENT_ERROR_CODE: i32 = 2;

/// The exception code of an operation the iterator does not support.
pub const UNSUPPORTED_CODE: i32 = 3;

/// The exception code of an integer overflow.
pub const INT_OVERFLOW_CODE: i32 = 4;

/// Why an iterator operation failed.
#[derive(Debug, PartialEq)]
pub enum IterError {
    /// An adapter found the iterator already handed on to another adapter.
    Moved,
    /// A consumer found no iterator left to consume.
    Consumed,
    /// An argument was out of range.
    ArgumentError(String),
    /// The operation (first) needs an iterator of another kind (second).
    Unsupported(String, String),
    /// Any other failure, with its message.
    Other(String),
    /// Two values were compared that do not compare: a double with a NaN
    /// double, or a string with a string that is not UTF-8.
    Unorderable,
}

/// The PHP exception class an error is raised as.
#[derive(Debug, Clone, Copy, PartialEq, Eq)]
pub enum ExceptionClass {
    LogicException,
    ValueError,
    DomainException,
    ArithmeticError,
    Exception,
}

impl IterError {
    /// The code of the PHP exception raised for this error.
    pub open spec fn spec_code(&self) -> i32 {
        match self {
            IterError::Moved | IterError::Consumed => CONSUMED_CODE,
            IterError::ArgumentError(_) => ARGUMENT_ERROR_CODE,
            IterError::Unsupported(_, _) => UNSUPPORTED_CODE,
            _ => 0,
        }
    }

    pub fn code(&self) -> (r: i32)
        ensures
            r == self.spec_code(),
    {
        match self {
            IterError::Moved | IterError::Consumed => CONSUMED_CODE,
            IterError::ArgumentError(_) => ARGUMENT_ERROR_CODE,
            IterError::Unsupported(_, _) => UNSUPPORTED_CODE,
            _ => 0,
        }
    }

    /// The class of the PHP exception raised for this error.
    pub open spec fn spec_class(&self) -> ExceptionClass {
        match self {
            IterError::Moved | IterError::Consumed => ExceptionClass::LogicException,
            IterError::ArgumentError(_) => ExceptionClass::ValueError,
            IterError::Unsupported(_, _) => ExceptionClass::DomainException,
            _ => ExceptionClass::Exception,
        }
    }

    pub fn class(&self) -> (r: ExceptionClass)
        ensures
            r == self.spec_class(),
    {
        match self {
            IterError::Moved | IterError::Consumed => ExceptionClass::LogicException,
            IterError::ArgumentError(_) => ExceptionClass::ValueError,
            IterError::Unsupported(_, _) => ExceptionClass::DomainException,
            _ => ExceptionClass::Exception,
        }
    }

    /// The message of the error.
    pub fn message(&self) -> (r: String)
        ensures
            self is Moved ==> r@ == "The iterator has already been moved."@,
            self is Consumed ==> r@ == "The iterator has already been consumed"@,
            self is ArgumentError ==> r@ == "Invalid argument: "@ + self->ArgumentError_0@,
            self is Unsupported ==> r@ == "Unsupported operation. "@ + self->Unsupported_0@
                + " is only supported on "@ + self->Unsupported_1@ + " iterators."@,
            self is Other ==> r@ == self->Other_0@,
            self is Unorderable ==> r@ == "called `Option::unwrap()` on a `None` value"@,
    {
        match self {
            IterError::Moved => "The iterator has already been moved.".to_string(),
            IterError::Consumed => "The iterator has already been consumed".to_string(),
            IterError::ArgumentError(s) => {
                let mut m = "Invalid argument: ".to_string();
                m.append(s.as_str());
                m
            },
            IterError::Unsupported(op, kind) => {
                let mut m = "Unsupported operation. ".to_string();
                m.append(op.as_str());
                m.append(" is only supported on ");
                m.append(kind.as_str());
                m.append(" iterators.");
                m
            },
            IterError::Other(s) => s.clone(),
            IterError::Unorderable => "called `Option::unwrap()` on a `None` value".to_string(),
        }
    }
}

} // verus!
