use vstd::prelude::*;

verus! {

/// One of the four binary operators, each bound to one input character.
#[derive(Debug, Clone, Copy, PartialEq, Eq, Structural)]
pub enum Operation {
    Sum,
    Difference,
    Product,
    Division,
}

/// The smallest classified unit of a line.
#[derive(Debug, Clone, Copy, PartialEq, Eq, Structural)]
pub enum Token {
    Integer(u32),
    Op(Operation),
    Eof,
}

/// Why the evaluation of a line failed.
#[derive(Debug, Clone, Copy, PartialEq, Eq, Structural)]
pub enum EvalError {
    /// A character that is neither a digit, a space nor an operator.
    InvalidToken,
    /// The token stream does not follow the grammar; carries the token found.
    UnexpectedToken(Token),
    /// The right operand of a division is zero.
    DivisionByZero,
    /// A subtraction whose right operand exceeds its left one.
    ArithmeticUnderflow,
    /// A sum, a product or an integer literal beyond the range of `u32`.
    ArithmeticOverflow,
}

impl Operation {
    /// What applying the operator to `(a, b)`, in that order, yields.
    pub open spec fn spec_calculate(self, a: u32, b: u32) -> Result<u32, EvalError> {
        match self {
            Operation::Sum => if a + b <= u32::MAX {
                Ok((a + b) as u32)
            } else {
                Err(EvalError::ArithmeticOverflow)
            },
            Operation::Difference => if b <= a {
                Ok((a - b) as u32)
            } else {
                Err(EvalError::ArithmeticUnderflow)
            },
            Operation::Product => if a * b <= u32::MAX {
                Ok((a * b) as u32)
            } else {
                Err(EvalError::ArithmeticOverflow)
            },
            Operation::Division => if b == 0 {
                Err(EvalError::DivisionByZero)
            } else {
                Ok((a / b) as u32)
            },
        }
    }

    /// Applies the operator to `val1` and `val2`, in that order, failing
    /// instead of wrapping.
    pub fn calculate(&self, val1: u32, val2: u32) -> (r: Result<u32, EvalError>)
        ensures
            r == self.spec_calculate(val1, val2),
    {
        match *self {
            Operation::Sum => match val1.checked_add(val2) {
                Some(v) => Ok(v),
                None => Err(EvalError::ArithmeticOverflow),
            },
            Operation::Difference => if val2 <= val1 {
                Ok(val1 - val2)
            } else {
                Err(EvalError::ArithmeticUnderflow)
            },
            Operation::Product => match val1.checked_mul(val2) {
                Some(v) => Ok(v),
                None => Err(EvalError::ArithmeticOverflow),
            },
            Operation::Division => if val2 == 0 {
                Err(EvalError::DivisionByZero)
            } else {
                Ok(val1 / val2)
            },
        }
    }
}

impl EvalError {
    /// A human-readable description of the error.
    pub fn message(&self) -> (r: &'static str)
        ensures
            r@ == (match *self {
                EvalError::InvalidToken => "Invalid token"@,
                EvalError::UnexpectedToken(_) => "Unexpected token"@,
                EvalError::DivisionByZero => "Division by zero"@,
                EvalError::ArithmeticUnderflow => "Arithmetic underflow"@,
                EvalError::ArithmeticOverflow => "Arithmetic overflow"@,
            }),
    {
        match *self {
            EvalError::InvalidToken => "Invalid token",
            EvalError::UnexpectedToken(_) => "Unexpected token",
            EvalError::DivisionByZero => "Division by zero",
            EvalError::ArithmeticUnderflow => "Arithmetic underflow",
            EvalError::ArithmeticOverflow => "Arithmetic overflow",
        }
    }
}

} // verus!
