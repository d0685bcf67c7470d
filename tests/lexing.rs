use calc_interpreter::{EvalError, Lexer, Operation, Token};

#[test]
fn reads_tokens_in_order() {
    let mut lexer = Lexer::new(" 12 +3*  45/6-7");
    assert_eq!(lexer.get_next_token(), Ok(Token::Integer(12)));
    assert_eq!(lexer.get_next_token(), Ok(Token::Op(Operation::Sum)));
    assert_eq!(lexer.get_next_token(), Ok(Token::Integer(3)));
    assert_eq!(lexer.get_next_token(), Ok(Token::Op(Operation::Product)));
    assert_eq!(lexer.get_next_token(), Ok(Token::Integer(45)));
    assert_eq!(lexer.get_next_token(), Ok(Token::Op(Operation::Division)));
    assert_eq!(lexer.get_next_token(), Ok(Token::Integer(6)));
    assert_eq!(lexer.get_next_token(), Ok(Token::Op(Operation::Difference)));
    assert_eq!(lexer.get_next_token(), Ok(Token::Integer(7)));
    assert_eq!(lexer.get_next_token(), Ok(Token::Eof));
}

#[test]
fn end_of_input_repeats() {
    let mut lexer = Lexer::new("1  ");
    assert_eq!(lexer.get_next_token(), Ok(Token::Integer(1)));
    assert!(lexer.is_next_token_eof());
    assert_eq!(lexer.get_next_token(), Ok(Token::Eof));
    assert_eq!(lexer.get_next_token(), Ok(Token::Eof));
    assert_eq!(lexer.get_next_token(), Ok(Token::Eof));
}

#[test]
fn lookahead_does_not_consume() {
    let mut lexer = Lexer::new("  9");
    assert!(!lexer.is_next_token_eof());
    assert!(!lexer.is_next_token_eof());
    assert_eq!(lexer.get_next_token(), Ok(Token::Integer(9)));
    assert!(lexer.is_next_token_eof());
    let empty = Lexer::new("    ");
    assert!(empty.is_next_token_eof());
}

#[test]
fn invalid_character_stays() {
    let mut lexer = Lexer::new(" ?1");
    assert_eq!(lexer.get_next_token(), Err(EvalError::InvalidToken));
    assert_eq!(lexer.get_next_token(), Err(EvalError::InvalidToken));
    let mut newline = Lexer::new("\n");
    assert_eq!(newline.get_next_token(), Err(EvalError::InvalidToken));
}

#[test]
fn numeral_is_one_token() {
    let mut lexer = Lexer::new("9876543210 1");
    assert_eq!(lexer.get_next_token(), Err(EvalError::ArithmeticOverflow));
    assert_eq!(lexer.get_next_token(), Ok(Token::Integer(1)));
}

#[test]
fn skip_spaces_moves_to_token() {
    let mut lexer = Lexer::new("   +");
    lexer.skip_spaces();
    assert_eq!(lexer.get_next_token(), Ok(Token::Op(Operation::Sum)));
}

#[test]
fn extract_continues_numeral() {
    let mut lexer = Lexer::new("234+1");
    assert_eq!(lexer.extract_complete_integer(1), Some(1234));
    assert_eq!(lexer.get_next_token(), Ok(Token::Op(Operation::Sum)));
    let mut big = Lexer::new("00000000000");
    assert_eq!(big.extract_complete_integer(1), None);
    let mut none = Lexer::new("x");
    assert_eq!(none.extract_complete_integer(5), Some(5));
}
