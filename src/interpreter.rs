use vstd::prelude::*;

use crate::lexer::{at_end, lemma_lex_leaves_suffix, lemma_lex_shrinks, lex, Lexer};
use crate::token::{EvalError, Operation, Token};

verus! {

/// A lexing outcome read where the grammar asks for an integer.
pub open spec fn integer_of(r: Result<Token, EvalError>) -> Result<u32, EvalError> {
    match r {
        Ok(Token::Integer(v)) => Ok(v),
        Ok(t) => Err(EvalError::UnexpectedToken(t)),
        Err(e) => Err(e),
    }
}

/// A lexing outcome read where the grammar asks for an operator.
pub open spec fn operation_in(r: Result<Token, EvalError>) -> Result<Operation, EvalError> {
    match r {
        Ok(Token::Op(op)) => Ok(op),
        Ok(t) => Err(EvalError::UnexpectedToken(t)),
        Err(e) => Err(e),
    }
}

/// A lexing outcome read where the grammar asks for the end of the line.
pub open spec fn end_of(r: Result<Token, EvalError>) -> Result<(), EvalError> {
    match r {
        Ok(Token::Eof) => Ok(()),
        Ok(t) => Err(EvalError::UnexpectedToken(t)),
        Err(e) => Err(e),
    }
}

#[via_fn]
proof fn fold_rest_decreases(s: Seq<char>, acc: u32) {
    lemma_lex_shrinks(s);
    lemma_lex_shrinks(lex(s).1);
    lemma_lex_leaves_suffix(lex(s).1);
}

/// What folding the input `s` into the running value `acc` yields: while
/// anything but spaces is left, read an operator and an integer and apply
/// the operator to the running value and the integer.
pub open spec fn fold_rest(s: Seq<char>, acc: u32) -> Result<u32, EvalError>
    decreases s.len(),
    via fold_rest_decreases
{
    if at_end(s) {
        Ok(acc)
    } else {
        match operation_in(lex(s).0) {
            Err(e) => Err(e),
            Ok(op) => {
                let s1 = lex(s).1;
                match integer_of(lex(s1).0) {
                    Err(e) => Err(e),
                    Ok(v) => match op.spec_calculate(acc, v) {
                        Err(e) => Err(e),
                        Ok(x) => fold_rest(lex(s1).1, x),
                    },
                }
            },
        }
    }
}

/// The outcome of evaluating the line `s`: a leading integer, then the fold
/// of the rest.
pub open spec fn evaluate_line(s: Seq<char>) -> Result<u32, EvalError> {
    match integer_of(lex(s).0) {
        Err(e) => Err(e),
        Ok(v) => fold_rest(lex(s).1, v),
    }
}

/// Evaluates one line, pulling its tokens from the lexer it owns.
pub struct Interpreter {
    lexer: Lexer,
}

impl View for Interpreter {
    /// The input that is still to be read.
    type V = Seq<char>;

    closed spec fn view(&self) -> Seq<char> {
        self.lexer@
    }
}

impl Interpreter {
    /// An interpreter that reads its tokens from `lexer`.
    pub fn new(lexer: Lexer) -> (r: Interpreter)
        ensures
            r@ == lexer@,
    {
        Interpreter { lexer }
    }

    fn eat_integer(&mut self) -> (r: Result<u32, EvalError>)
        ensures
            r == integer_of(lex(old(self)@).0),
            final(self)@ == lex(old(self)@).1,
    {
        match self.lexer.get_next_token() {
            Ok(Token::Integer(v)) => Ok(v),
            Ok(t) => Err(EvalError::UnexpectedToken(t)),
            Err(e) => Err(e),
        }
    }

    fn eat_operation(&mut self) -> (r: Result<Operation, EvalError>)
        ensures
            r == operation_in(lex(old(self)@).0),
            final(self)@ == lex(old(self)@).1,
    {
        match self.lexer.get_next_token() {
            Ok(Token::Op(op)) => Ok(op),
            Ok(t) => Err(EvalError::UnexpectedToken(t)),
            Err(e) => Err(e),
        }
    }

    fn eat_eof(&mut self) -> (r: Result<(), EvalError>)
        ensures
            r == end_of(lex(old(self)@).0),
            final(self)@ == lex(old(self)@).1,
    {
        match self.lexer.get_next_token() {
            Ok(Token::Eof) => Ok(()),
            Ok(t) => Err(EvalError::UnexpectedToken(t)),
            Err(e) => Err(e),
        }
    }

    /// Evaluates the input that is left: an integer, then any number of
    /// operator and integer pairs folded from left to right, then the end
    /// of the line. The first error ends the evaluation.
    pub fn expr(&mut self) -> (r: Result<u32, EvalError>)
        ensures
            r == evaluate_line(old(self)@),
    {
        let left = match self.eat_integer() {
            Ok(v) => v,
            Err(e) => return Err(e),
        };
        let mut value: u32 = left;
        while !self.lexer.is_next_token_eof()
            invariant
                fold_rest(self@, value) == evaluate_line(old(self)@),
            decreases self@.len(),
        {
            proof {
                lemma_lex_shrinks(self@);
                lemma_lex_shrinks(lex(self@).1);
                lemma_lex_leaves_suffix(lex(self@).1);
            }
            let operation = match self.eat_operation() {
                Ok(op) => op,
                Err(e) => return Err(e),
            };
            let right = match self.eat_integer() {
                Ok(v) => v,
                Err(e) => return Err(e),
            };
            value = match operation.calculate(value, right) {
                Ok(v) => v,
                Err(e) => return Err(e),
            };
        }
        match self.eat_eof() {
            Ok(()) => {},
            Err(e) => return Err(e),
        }
        Ok(value)
    }
}

/// Evaluation is a function of the line's text alone: the same text, read
/// by two fresh lexers, gives the same value or the same error.
pub proof fn lemma_evaluation_depends_on_text_alone(a: Seq<char>, b: Seq<char>)
    requires
        a == b,
    ensures
        evaluate_line(a) == evaluate_line(b),
{
}

/// Evaluates one line of text with a fresh lexer.
pub fn evaluate(line: &str) -> (r: Result<u32, EvalError>)
    ensures
        r == evaluate_line(line@),
{
    let mut interpreter = Interpreter::new(Lexer::new(line));
    interpreter.expr()
}

} // verus!
