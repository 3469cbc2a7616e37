use simple_interpreter::arithmetic::Fault;
use simple_interpreter::calculator::interpreter::{
    lisp_notation, postfix_notation, visit, EvalError,
};
use simple_interpreter::calculator::lexer::Lexer;
use simple_interpreter::calculator::parser::{ParseError, Parser};
use simple_interpreter::calculator::syn::ASTNode;
use simple_interpreter::calculator::syn::ASTNode::{BinOp, Num, UnaryOp};
use simple_interpreter::calculator::syn::Token;
use simple_interpreter::calculator::syn::Token::Operator;
use simple_interpreter::language::lexer::LexError;

fn tree(text: &str) -> ASTNode {
    Parser::new(Lexer::new(text)).unwrap().expr().unwrap()
}

#[test]
fn test_factor_valid() {
    let mut parser = Parser::new(Lexer::new("5")).unwrap();

    assert_eq!(Num(5), parser.factor().unwrap());

    parser = Parser::new(Lexer::new("-5")).unwrap();
    assert_eq!(UnaryOp{op: Operator('-'), expr: Box::new(Num(5))}, parser.factor().unwrap());

    parser = Parser::new(Lexer::new("+5")).unwrap();
    assert_eq!(UnaryOp{op: Operator('+'), expr: Box::new(Num(5))}, parser.factor().unwrap());

    parser = Parser::new(Lexer::new("+(5-2)")).unwrap();
    assert_eq!(UnaryOp{op: Operator('+'), expr: Box::new(BinOp{
        left: Box::new(Num(5)),
        op: Operator('-'),
        right: Box::new(Num(2)),
    })}, parser.factor().unwrap());
}

#[test]
fn test_term_valid() {
    let mut parser = Parser::new(Lexer::new("5*2")).unwrap();
    assert_eq!(BinOp{
            left: Box::new(Num(5)),
            op: Operator('*'),
            right: Box::new(Num(2)),
    }, parser.term().unwrap());

    parser = Parser::new(Lexer::new("1 * 10")).unwrap();
    assert_eq!(BinOp{
            left: Box::new(Num(1)),
            op: Operator('*'),
            right: Box::new(Num(10)),
    }, parser.term().unwrap());

    parser = Parser::new(Lexer::new("3*6/2")).unwrap();
    assert_eq!(BinOp{
        left: Box::new(BinOp{
            left: Box::new(Num(3)),
            op: Operator('*'),
            right: Box::new(Num(6)),
        }),
        op: Operator('/'),
        right: Box::new(Num(2)),
    }, parser.term().unwrap());

    parser = Parser::new(Lexer::new("5/2")).unwrap();
    assert_eq!(BinOp{
            left: Box::new(Num(5)),
            op: Operator('/'),
            right: Box::new(Num(2)),
    }, parser.term().unwrap());
}

#[test]
fn test_expr_valid() {
    let mut parser = Parser::new(Lexer::new("5+2")).unwrap();
    assert_eq!(BinOp{
        left: Box::new(Num(5)),
        op: Operator('+'),
        right: Box::new(Num(2)),
    }, parser.expr().unwrap());

    parser = Parser::new(Lexer::new("2 * 10 -6")).unwrap();
    assert_eq!(BinOp{
        left: Box::new(BinOp{
            left: Box::new(Num(2)),
            op: Operator('*'),
            right: Box::new(Num(10)),
        }),
        op: Operator('-'),
        right: Box::new(Num(6)),
    }, parser.expr().unwrap());

    parser = Parser::new(Lexer::new("5+4*8")).unwrap();
    assert_eq!(BinOp{
        left: Box::new(Num(5)),
        op: Operator('+'),
        right: Box::new(BinOp{
            left: Box::new(Num(4)),
            op: Operator('*'),
            right: Box::new(Num(8)),
        }),
    }, parser.expr().unwrap());

    parser = Parser::new(Lexer::new("6/(2+1)")).unwrap();
    assert_eq!(BinOp{
        left: Box::new(Num(6)),
        op: Operator('/'),
        right: Box::new(BinOp{
            left: Box::new(Num(2)),
            op: Operator('+'),
            right: Box::new(Num(1)),
        }),
    }, parser.expr().unwrap());
}

#[test]
fn calculator_factor_without_operand_is_a_syntax_error() {
    let mut parser = Parser::new(Lexer::new("+")).unwrap();
    assert_eq!(
        parser.factor(),
        Err(ParseError::SyntaxError { expected: Token::Integer(0), found: Token::End })
    );
}

#[test]
fn calculator_two_operators_in_a_row_are_a_syntax_error() {
    let mut parser = Parser::new(Lexer::new("5**2")).unwrap();
    assert_eq!(
        parser.term(),
        Err(ParseError::SyntaxError { expected: Token::Integer(0), found: Operator('*') })
    );
}

#[test]
fn calculator_parenthesis_must_be_closed_by_its_own_kind() {
    let mut parser = Parser::new(Lexer::new("(5-2]")).unwrap();
    assert_eq!(
        parser.factor(),
        Err(ParseError::SyntaxError { expected: Operator(')'), found: Operator(']') })
    );
    parser = Parser::new(Lexer::new("(5-2")).unwrap();
    assert_eq!(
        parser.factor(),
        Err(ParseError::SyntaxError { expected: Operator(')'), found: Token::End })
    );
}

#[test]
fn calculator_parser_passes_lex_errors_on() {
    assert!(matches!(
        Parser::new(Lexer::new("99999999999999999999")),
        Err(ParseError::LexError(LexError::IntegerOverflow))
    ));
    let mut parser = Parser::new(Lexer::new("1+99999999999999999999")).unwrap();
    assert_eq!(parser.expr(), Err(ParseError::LexError(LexError::IntegerOverflow)));
}

#[test]
fn calculator_parser_of_empty_text_has_nothing_to_parse() {
    let mut parser = Parser::new(Lexer::new("")).unwrap();
    assert_eq!(
        parser.expr(),
        Err(ParseError::SyntaxError { expected: Token::Integer(0), found: Token::End })
    );
}

#[test]
fn calculator_values_follow_precedence_and_round_towards_zero() {
    assert_eq!(visit(&tree("7 + 3 * (10 / (12 / (3 + 1) - 1))")), Ok(22));
    assert_eq!(visit(&tree("6/2+1")), Ok(4));
    assert_eq!(visit(&tree("-6/2+1")), Ok(-2));
    assert_eq!(visit(&tree("-7/2")), Ok(-3));
    assert_eq!(visit(&tree("7/(0-2)")), Ok(-3));
    assert_eq!(visit(&tree("5 - - - + - 3")), Ok(8));
    assert_eq!(visit(&tree("2 plus 3 times 4")), Ok(14));
    assert_eq!(visit(&tree("8 - 3 - 2")), Ok(3));
    assert_eq!(visit(&tree("42")), Ok(42));
}

#[test]
fn calculator_arithmetic_errors() {
    assert_eq!(visit(&tree("1/0")), Err(EvalError::ArithmeticError(Fault::DivisionByZero)));
    assert_eq!(
        visit(&tree("2*(3-1/(4-4))")),
        Err(EvalError::ArithmeticError(Fault::DivisionByZero))
    );
    assert_eq!(
        visit(&tree("9223372036854775807+1")),
        Err(EvalError::ArithmeticError(Fault::Overflow))
    );
    assert_eq!(
        visit(&tree("9223372036854775808/(0-1)")),
        Err(EvalError::ArithmeticError(Fault::Overflow))
    );
    assert_eq!(
        visit(&tree("-9223372036854775808")),
        Err(EvalError::ArithmeticError(Fault::Overflow))
    );
}

#[test]
fn calculator_visit_refuses_unknown_operators() {
    let node = BinOp { left: Box::new(Num(1)), op: Operator('^'), right: Box::new(Num(2)) };
    assert_eq!(visit(&node), Err(EvalError::UnsupportedNodeError));
    let node = BinOp { left: Box::new(Num(1)), op: Token::End, right: Box::new(Num(2)) };
    assert_eq!(visit(&node), Err(EvalError::UnsupportedNodeError));
    let node = UnaryOp { op: Operator('*'), expr: Box::new(Num(2)) };
    assert_eq!(visit(&node), Err(EvalError::UnsupportedNodeError));
}

#[test]
fn postfix_notation_puts_operators_last() {
    assert_eq!(postfix_notation(&tree("(5 + 3) * 12 / 3")), Ok("5 3 + 12 * 3 /".to_owned()));
    assert_eq!(postfix_notation(&tree("2 + 3 * 4")), Ok("2 3 4 * +".to_owned()));
    assert_eq!(postfix_notation(&tree("0")), Ok("0".to_owned()));
    assert_eq!(postfix_notation(&Num(-120)), Ok("-120".to_owned()));
    assert_eq!(postfix_notation(&Num(i64::MIN)), Ok("-9223372036854775808".to_owned()));
    assert_eq!(postfix_notation(&Num(i64::MAX)), Ok("9223372036854775807".to_owned()));
}

#[test]
fn lisp_notation_puts_operators_first() {
    assert_eq!(lisp_notation(&tree("(5 + 3) * 12 / 3")), Ok("(/ (* (+ 5 3) 12) 3)".to_owned()));
    assert_eq!(lisp_notation(&tree("2 + 3 * 4")), Ok("(+ 2 (* 3 4))".to_owned()));
    assert_eq!(lisp_notation(&tree("1007")), Ok("1007".to_owned()));
}

#[test]
fn notations_do_not_support_unary_nodes() {
    assert_eq!(postfix_notation(&tree("-5")), Err(EvalError::UnsupportedNodeError));
    assert_eq!(lisp_notation(&tree("1 + -5")), Err(EvalError::UnsupportedNodeError));
    let node = BinOp { left: Box::new(Num(1)), op: Token::Integer(7), right: Box::new(Num(2)) };
    assert_eq!(postfix_notation(&node), Err(EvalError::UnsupportedNodeError));
    assert_eq!(lisp_notation(&node), Err(EvalError::UnsupportedNodeError));
}

#[test]
fn calculator_tree_copies_are_equal() {
    let node = tree("-(1+2)*3");
    assert_eq!(node.clone(), node);
    assert_eq!(node.deep_copy(), node);
}
