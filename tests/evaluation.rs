use calc_interpreter::{evaluate, EvalError, Interpreter, Lexer, Operation, Token};

fn eval(line: &str) -> Result<u32, EvalError> {
    let mut interpreter = Interpreter::new(Lexer::new(line));
    interpreter.expr()
}

#[test]
fn spaces_are_insignificant() {
    assert_eq!(eval("4+5"), Ok(9));
    assert_eq!(eval("4 + 5"), Ok(9));
    assert_eq!(eval("4  +  5"), Ok(9));
    assert_eq!(eval("   4+5"), Ok(9));
    assert_eq!(eval("4+5   "), Ok(9));
}

#[test]
fn multi_digit_numbers() {
    assert_eq!(eval("10+56"), Ok(66));
    assert_eq!(eval("123"), Ok(123));
    assert_eq!(eval("  123  "), Ok(123));
    assert_eq!(eval("007"), Ok(7));
}

#[test]
fn division_truncates() {
    assert_eq!(eval("7/2"), Ok(3));
    assert_eq!(eval("1/2"), Ok(0));
    assert_eq!(eval("8/4"), Ok(2));
}

#[test]
fn arithmetic_errors() {
    assert_eq!(eval("5/0"), Err(EvalError::DivisionByZero));
    assert_eq!(eval("3-5"), Err(EvalError::ArithmeticUnderflow));
    assert_eq!(eval("5-5"), Ok(0));
    assert_eq!(eval("4294967295+1"), Err(EvalError::ArithmeticOverflow));
    assert_eq!(eval("65536*65536"), Err(EvalError::ArithmeticOverflow));
    assert_eq!(eval("4294967295*1"), Ok(4294967295));
}

#[test]
fn numeral_too_large() {
    assert_eq!(eval("4294967295"), Ok(4294967295));
    assert_eq!(eval("4294967296"), Err(EvalError::ArithmeticOverflow));
    assert_eq!(eval("1+99999999999"), Err(EvalError::ArithmeticOverflow));
}

#[test]
fn grammar_errors() {
    assert_eq!(
        eval("4+"),
        Err(EvalError::UnexpectedToken(Token::Eof))
    );
    assert_eq!(eval("a+5"), Err(EvalError::InvalidToken));
    assert_eq!(
        eval("+5"),
        Err(EvalError::UnexpectedToken(Token::Op(Operation::Sum)))
    );
    assert_eq!(
        eval("4 5"),
        Err(EvalError::UnexpectedToken(Token::Integer(5)))
    );
    assert_eq!(
        eval("4++5"),
        Err(EvalError::UnexpectedToken(Token::Op(Operation::Sum)))
    );
    assert_eq!(eval(""), Err(EvalError::UnexpectedToken(Token::Eof)));
    assert_eq!(eval("4\t+5"), Err(EvalError::InvalidToken));
    assert_eq!(eval("4+5a"), Err(EvalError::InvalidToken));
}

#[test]
fn first_error_wins() {
    assert_eq!(eval("5/0+a"), Err(EvalError::DivisionByZero));
    assert_eq!(
        eval("4 4 a"),
        Err(EvalError::UnexpectedToken(Token::Integer(4)))
    );
}

#[test]
fn same_text_same_outcome() {
    for line in ["2+3*4", "4+", "a+5", "5/0", "3-5", "  10 + 56 "] {
        assert_eq!(eval(line), eval(line));
        assert_eq!(evaluate(line), eval(line));
    }
}

#[test]
fn folds_left_to_right() {
    assert_eq!(eval("2+3*4"), Ok(20));
    assert_eq!(eval("2*3+4"), Ok(10));
    assert_eq!(eval("10-4-3"), Ok(3));
    assert_eq!(eval("100/10/5"), Ok(2));
    assert_eq!(eval(" 1 + 2 * 3 - 4 / 5 "), Ok(1));
    assert_eq!(eval("2-3+4"), Err(EvalError::ArithmeticUnderflow));
}

#[test]
fn evaluate_matches_interpreter() {
    assert_eq!(evaluate("6*7"), Ok(42));
    assert_eq!(evaluate("x"), Err(EvalError::InvalidToken));
}
