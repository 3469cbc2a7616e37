use simple_interpreter::arithmetic::Fault;
use simple_interpreter::calculator::{Interpreter, InterpreterError, InterpreterState, Lexer, Token};
use simple_interpreter::language::lexer::LexError;
use std::mem::discriminant;

#[test]
fn test_add_state() {
    // Add should transition to `Integer` state
    let mut interpreter = Interpreter::new();
    interpreter.state = interpreter.next(&Token::Integer(5)).unwrap();
    interpreter.state = interpreter.next(&Token::Operator('+')).unwrap();

    let ns = interpreter.next(&Token::Integer(3)).unwrap();
    assert_eq!(discriminant(&ns), discriminant(&InterpreterState::Integer));
    assert_eq!(interpreter.stack.pop().unwrap(), 5+3);
}

#[test]
fn test_subtract_state() {
    // Subtract should transition to `Integer` state
    let mut interpreter = Interpreter::new();
    interpreter.state = interpreter.next(&Token::Integer(5)).unwrap();
    interpreter.state = interpreter.next(&Token::Operator('-')).unwrap();

    let ns = interpreter.next(&Token::Integer(3)).unwrap();
    assert_eq!(discriminant(&ns), discriminant(&InterpreterState::Integer));
    assert_eq!(interpreter.stack.pop().unwrap(), 5-3);
}

#[test]
fn test_multiply_state() {
    // Multiply should transition to `Integer` state
    let mut interpreter = Interpreter::new();
    interpreter.state = interpreter.next(&Token::Integer(5)).unwrap();
    interpreter.state = interpreter.next(&Token::Operator('*')).unwrap();

    let ns = interpreter.next(&Token::Integer(3)).unwrap();
    assert_eq!(discriminant(&ns), discriminant(&InterpreterState::Integer));
    assert_eq!(interpreter.stack.pop().unwrap(), 5*3);
}

#[test]
fn calculator_test_lexer() {
    let mut lexer = Lexer::new("5+123");
    assert_eq!(lexer.next_token().unwrap(), Token::Integer(5));
    assert_eq!(lexer.next_token().unwrap(), Token::Operator('+'));
    assert_eq!(lexer.next_token().unwrap(), Token::Integer(123));
    assert_eq!(lexer.next_token().unwrap(), Token::End);

    lexer = Lexer::new("115+123");
    assert_eq!(lexer.next_token().unwrap(), Token::Integer(115));
    assert_eq!(lexer.next_token().unwrap(), Token::Operator('+'));
    assert_eq!(lexer.next_token().unwrap(), Token::Integer(123));
    assert_eq!(lexer.next_token().unwrap(), Token::End);

    lexer = Lexer::new("115++123");
    assert_eq!(lexer.next_token().unwrap(), Token::Integer(115));
    assert_eq!(lexer.next_token().unwrap(), Token::Operator('+'));
    assert_eq!(lexer.next_token().unwrap(), Token::Operator('+'));
    assert_eq!(lexer.next_token().unwrap(), Token::Integer(123));
    assert_eq!(lexer.next_token().unwrap(), Token::End);

    lexer = Lexer::new("115+123+1");
    assert_eq!(lexer.next_token().unwrap(), Token::Integer(115));
    assert_eq!(lexer.next_token().unwrap(), Token::Operator('+'));
    assert_eq!(lexer.next_token().unwrap(), Token::Integer(123));
    assert_eq!(lexer.next_token().unwrap(), Token::Operator('+'));
    assert_eq!(lexer.next_token().unwrap(), Token::Integer(1));
    assert_eq!(lexer.next_token().unwrap(), Token::End);

    lexer = Lexer::new("-115+123+1");
    assert_eq!(lexer.next_token().unwrap(), Token::Integer(0));
    assert_eq!(lexer.next_token().unwrap(), Token::Operator('-'));
    assert_eq!(lexer.next_token().unwrap(), Token::Integer(115));
    assert_eq!(lexer.next_token().unwrap(), Token::Operator('+'));
    assert_eq!(lexer.next_token().unwrap(), Token::Integer(123));
    assert_eq!(lexer.next_token().unwrap(), Token::Operator('+'));
    assert_eq!(lexer.next_token().unwrap(), Token::Integer(1));
    assert_eq!(lexer.next_token().unwrap(), Token::End);
}

#[test]
fn start_state_takes_a_number_and_no_operator() {
    let mut interpreter = Interpreter::new();
    let ns = interpreter.next(&Token::Integer(1)).unwrap();
    assert_eq!(ns, InterpreterState::Integer);
    assert_eq!(interpreter.stack, vec![1]);

    // `next` leaves the state to the caller: this is still the start
    assert_eq!(interpreter.state, InterpreterState::Start);
    assert_eq!(interpreter.next(&Token::Operator('+')), Err(InterpreterError::SyntaxError));
    assert_eq!(interpreter.stack, vec![1]);
    assert_eq!(interpreter.next(&Token::End), Ok(InterpreterState::End));
}

#[test]
fn integer_state_takes_the_four_operators() {
    let mut interpreter = Interpreter::new();
    interpreter.state = interpreter.next(&Token::Integer(1)).unwrap();
    assert_eq!(interpreter.next(&Token::Operator('+')), Ok(InterpreterState::Add));
    assert_eq!(interpreter.next(&Token::Operator('-')), Ok(InterpreterState::Subtract));
    assert_eq!(interpreter.next(&Token::Operator('*')), Ok(InterpreterState::Multiply));
    assert_eq!(interpreter.next(&Token::Operator('/')), Ok(InterpreterState::Divide));
    assert_eq!(
        interpreter.next(&Token::Operator('>')),
        Err(InterpreterError::InvalidOperator('>'))
    );
    assert_eq!(interpreter.next(&Token::Integer(2)), Err(InterpreterError::SyntaxError));
    assert_eq!(interpreter.next(&Token::End), Ok(InterpreterState::End));
}

#[test]
fn divide_state_rounds_towards_zero_and_refuses_zero() {
    let mut interpreter = Interpreter::new();
    interpreter.state = interpreter.next(&Token::Integer(5)).unwrap();
    interpreter.state = interpreter.next(&Token::Operator('/')).unwrap();
    assert_eq!(interpreter.next(&Token::Integer(3)), Ok(InterpreterState::Integer));
    assert_eq!(interpreter.stack.pop().unwrap(), 5 / 3);

    interpreter.reset();
    assert_eq!(interpreter.state, InterpreterState::Start);
    assert!(interpreter.stack.is_empty());
    interpreter.state = interpreter.next(&Token::Integer(-7)).unwrap();
    interpreter.state = interpreter.next(&Token::Operator('/')).unwrap();
    assert_eq!(interpreter.next(&Token::Integer(2)), Ok(InterpreterState::Integer));
    assert_eq!(interpreter.stack, vec![-3]);

    interpreter.reset();
    interpreter.state = interpreter.next(&Token::Integer(1)).unwrap();
    interpreter.state = interpreter.next(&Token::Operator('/')).unwrap();
    assert_eq!(
        interpreter.next(&Token::Integer(0)),
        Err(InterpreterError::ArithmeticError(Fault::DivisionByZero))
    );
    assert_eq!(interpreter.stack, vec![1]);
    assert_eq!(interpreter.next(&Token::Operator('+')), Err(InterpreterError::SyntaxError));
}

#[test]
fn operator_states_report_overflow_and_missing_operand() {
    let mut interpreter = Interpreter::new();
    interpreter.state = interpreter.next(&Token::Integer(i32::MAX)).unwrap();
    interpreter.state = interpreter.next(&Token::Operator('+')).unwrap();
    assert_eq!(
        interpreter.next(&Token::Integer(1)),
        Err(InterpreterError::ArithmeticError(Fault::Overflow))
    );
    assert_eq!(interpreter.stack, vec![i32::MAX]);

    interpreter.reset();
    interpreter.state = interpreter.next(&Token::Integer(i32::MIN)).unwrap();
    interpreter.state = interpreter.next(&Token::Operator('/')).unwrap();
    assert_eq!(
        interpreter.next(&Token::Integer(-1)),
        Err(InterpreterError::ArithmeticError(Fault::Overflow))
    );

    interpreter.reset();
    interpreter.state = InterpreterState::Multiply;
    assert_eq!(interpreter.next(&Token::Integer(2)), Err(InterpreterError::MissingOperand));
}

#[test]
fn end_state_takes_the_result_off_the_stack() {
    let mut interpreter = Interpreter::new();
    interpreter.state = interpreter.next(&Token::Integer(4)).unwrap();
    interpreter.state = interpreter.next(&Token::End).unwrap();
    assert_eq!(interpreter.state, InterpreterState::End);
    assert_eq!(interpreter.next(&Token::End), Ok(InterpreterState::End));
    assert!(interpreter.stack.is_empty());
    assert_eq!(interpreter.next(&Token::Integer(1)), Ok(InterpreterState::End));

    interpreter.reset();
    interpreter.state = interpreter.next(&Token::Integer(4)).unwrap();
    interpreter.state = interpreter.next(&Token::End).unwrap();
    assert_eq!(interpreter.handle_end(), Some(4));
    assert_eq!(interpreter.handle_end(), None);
}

#[test]
fn flat_lexer_and_interpreter_run_left_to_right() {
    // no precedence: ((2 + 3) * 4) - 6
    let mut lexer = Lexer::new("2 + 3 * 4 - 6");
    let mut interpreter = Interpreter::new();
    loop {
        let token = lexer.next_token().unwrap();
        interpreter.state = interpreter.next(&token).unwrap();
        if token == Token::End {
            break;
        }
    }
    assert_eq!(interpreter.handle_end(), Some(14));
}

#[test]
fn flat_lexer_skips_blanks_inside_numbers() {
    let mut lexer = Lexer::new(" 1 2*3 ");
    assert_eq!(lexer.next_token(), Ok(Token::Integer(12)));
    assert_eq!(lexer.next_token(), Ok(Token::Operator('*')));
    assert_eq!(lexer.next_token(), Ok(Token::Integer(3)));
    assert_eq!(lexer.next_token(), Ok(Token::End));
    assert_eq!(lexer.next_token(), Ok(Token::End));
}

#[test]
fn flat_lexer_reports_integers_beyond_32_bits() {
    let mut lexer = Lexer::new("2147483647+2147483648");
    assert_eq!(lexer.next_token(), Ok(Token::Integer(i32::MAX)));
    assert_eq!(lexer.next_token(), Ok(Token::Operator('+')));
    assert_eq!(lexer.next_token(), Err(LexError::IntegerOverflow));
    assert_eq!(lexer.next_token(), Ok(Token::End));
}

#[test]
fn flat_lexer_of_empty_text_starts_with_zero() {
    let mut lexer = Lexer::new("");
    assert_eq!(lexer.next_token(), Ok(Token::Integer(0)));
    assert_eq!(lexer.next_token(), Ok(Token::End));
}
