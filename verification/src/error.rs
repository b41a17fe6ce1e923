use crate::decimal::{dec_digits, u64_digits};
use crate::text::chars_to_string;
use vstd::prelude::*;
use vstd::string::StringExecFns;

verus! {

/// The failure classification of the interpreter.
///
/// Every fallible entry point reports the first failure through one of
/// these kinds and abandons the rest of the current call.
#[derive(Debug, PartialEq, Eq)]
pub enum PsError {
    /// An unrecognized or malformed token at the given character position.
    ScanError(usize),
    /// An unmatched `}` in the source text.
    SyntaxError,
    /// An operator was invoked with too few operands.
    UnderflowError,
    /// An operand had the wrong variant for the operator.
    TypeError,
    /// A negative count for `roll`, `copy`, `index` or `repeat`, or a
    /// request that exceeds the stack depth.
    RangeError,
    /// An executable or immediately-evaluated name with no binding.
    UndefinedName,
    /// Division or modulo by zero, or an integer result out of range.
    ArithmeticError,
    /// `]`, `cleartomark` or `counttomark` with no mark on the stack.
    MarkNotFound,
    /// The scheduler's step budget ran out before the deferred work was
    /// drained; only a program doing work for centuries can reach this.
    LimitError,
}

/// The wording of each error kind.
pub open spec fn message_text(e: PsError) -> Seq<char> {
    match e {
        PsError::ScanError(p) => "unrecognized token at position "@ + dec_digits(p as nat),
        PsError::SyntaxError => "unmatched end of procedure"@,
        PsError::UnderflowError => "operand stack underflow"@,
        PsError::TypeError => "wrong operand type"@,
        PsError::RangeError => "count out of range"@,
        PsError::UndefinedName => "undefined name"@,
        PsError::ArithmeticError => "arithmetic failure"@,
        PsError::MarkNotFound => "mark not found"@,
        PsError::LimitError => "execution budget exhausted"@,
    }
}

impl PsError {
    /// A short, stable line of text describing the error.
    pub fn message(&self) -> (r: String)
        ensures
            r@ == message_text(*self),
    {
        match self {
            PsError::ScanError(p) => {
                let mut s = String::from_str("unrecognized token at position ");
                let digits = chars_to_string(&u64_digits(*p as u64));
                s.append(digits.as_str());
                s
            }
            PsError::SyntaxError => String::from_str("unmatched end of procedure"),
            PsError::UnderflowError => String::from_str("operand stack underflow"),
            PsError::TypeError => String::from_str("wrong operand type"),
            PsError::RangeError => String::from_str("count out of range"),
            PsError::UndefinedName => String::from_str("undefined name"),
            PsError::ArithmeticError => String::from_str("arithmetic failure"),
            PsError::MarkNotFound => String::from_str("mark not found"),
            PsError::LimitError => String::from_str("execution budget exhausted"),
        }
    }
}

} // verus!
