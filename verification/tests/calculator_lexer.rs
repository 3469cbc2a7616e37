use simple_interpreter::calculator::lexer::Lexer;
use simple_interpreter::calculator::syn::Token;
use simple_interpreter::language::lexer::LexError;

#[test]
fn lexer_test_lexer() {
    let mut lexer = Lexer::new("5+123");
    assert_eq!(lexer.next().unwrap(), Token::Integer(5));
    assert_eq!(lexer.next().unwrap(), Token::Operator('+'));
    assert_eq!(lexer.next().unwrap(), Token::Integer(123));
    assert_eq!(lexer.next(), Ok(Token::End));

    lexer = Lexer::new("115+123");
    assert_eq!(lexer.next().unwrap(), Token::Integer(115));
    assert_eq!(lexer.next().unwrap(), Token::Operator('+'));
    assert_eq!(lexer.next().unwrap(), Token::Integer(123));
    assert_eq!(lexer.next(), Ok(Token::End));

    lexer = Lexer::new("115++123");
    assert_eq!(lexer.next().unwrap(), Token::Integer(115));
    assert_eq!(lexer.next().unwrap(), Token::Operator('+'));
    assert_eq!(lexer.next().unwrap(), Token::Operator('+'));
    assert_eq!(lexer.next().unwrap(), Token::Integer(123));
    assert_eq!(lexer.next(), Ok(Token::End));

    lexer = Lexer::new("115+123+1");
    assert_eq!(lexer.next().unwrap(), Token::Integer(115));
    assert_eq!(lexer.next().unwrap(), Token::Operator('+'));
    assert_eq!(lexer.next().unwrap(), Token::Integer(123));
    assert_eq!(lexer.next().unwrap(), Token::Operator('+'));
    assert_eq!(lexer.next().unwrap(), Token::Integer(1));
    assert_eq!(lexer.next(), Ok(Token::End));

    lexer = Lexer::new("(115+123)+1");
    assert_eq!(lexer.next().unwrap(), Token::Operator('('));
    assert_eq!(lexer.next().unwrap(), Token::Integer(115));
    assert_eq!(lexer.next().unwrap(), Token::Operator('+'));
    assert_eq!(lexer.next().unwrap(), Token::Integer(123));
    assert_eq!(lexer.next().unwrap(), Token::Operator(')'));
    assert_eq!(lexer.next().unwrap(), Token::Operator('+'));
    assert_eq!(lexer.next().unwrap(), Token::Integer(1));
    assert_eq!(lexer.next(), Ok(Token::End));
}

#[test]
fn words_spell_operators_in_any_case() {
    let mut lexer = Lexer::new("1 plus 2 TIMES 3 Divide 4 minue 5");
    assert_eq!(lexer.next(), Ok(Token::Integer(1)));
    assert_eq!(lexer.next(), Ok(Token::Operator('+')));
    assert_eq!(lexer.next(), Ok(Token::Integer(2)));
    assert_eq!(lexer.next(), Ok(Token::Operator('*')));
    assert_eq!(lexer.next(), Ok(Token::Integer(3)));
    assert_eq!(lexer.next(), Ok(Token::Operator('/')));
    assert_eq!(lexer.next(), Ok(Token::Integer(4)));
    assert_eq!(lexer.next(), Ok(Token::Operator('-')));
    assert_eq!(lexer.next(), Ok(Token::Integer(5)));
    assert_eq!(lexer.next(), Ok(Token::End));
}

#[test]
fn letters_that_spell_no_operator_are_dropped() {
    let mut lexer = Lexer::new("ab 12 é$");
    assert_eq!(lexer.next(), Ok(Token::Integer(12)));
    // 'é' is a letter and is dropped; '$' is none and is an operator
    assert_eq!(lexer.next(), Ok(Token::Operator('$')));
    assert_eq!(lexer.next(), Ok(Token::End));

    lexer = Lexer::new("xplus");
    assert_eq!(lexer.next(), Ok(Token::End));
}

#[test]
fn blanks_inside_a_number_are_skipped() {
    let mut lexer = Lexer::new("1 2 3+4");
    assert_eq!(lexer.next(), Ok(Token::Integer(123)));
    assert_eq!(lexer.next(), Ok(Token::Operator('+')));
    assert_eq!(lexer.next(), Ok(Token::Integer(4)));
    assert_eq!(lexer.next(), Ok(Token::End));
}

#[test]
fn integers_beyond_64_bits_are_an_error_that_stays() {
    let mut lexer = Lexer::new("18446744073709551615 18446744073709551616");
    assert_eq!(lexer.next(), Err(LexError::IntegerOverflow));
    assert_eq!(lexer.next(), Err(LexError::IntegerOverflow));

    lexer = Lexer::new("18446744073709551615+18446744073709551616");
    assert_eq!(lexer.next(), Ok(Token::Integer(u64::MAX)));
    assert_eq!(lexer.next(), Ok(Token::Operator('+')));
    assert_eq!(lexer.next(), Err(LexError::IntegerOverflow));
}
