use simple_interpreter::language::lexer::{LexError, Lexer};
use simple_interpreter::language::parser::{ParseError, Parser};
use simple_interpreter::language::syn::ASTNode;
use simple_interpreter::language::syn::ASTNode::{Assign, BinOp, Compound, NoOp, Num, UnaryOp, Var};
use simple_interpreter::language::syn::Token::{Add, Div, Id, Mul, Sub};
use simple_interpreter::language::syn::{Token, TokenKind};

fn parser(text: &str) -> Parser {
    Parser::new(Lexer::new(text)).unwrap()
}

fn syntax_error(expected: TokenKind, found: TokenKind) -> Result<ASTNode, ParseError> {
    Err(ParseError::SyntaxError { expected, found })
}

#[test]
fn parser_test_factor_valid() {
    let mut parser = Parser::new(Lexer::new("5")).unwrap();

    assert_eq!(Num(5), parser.factor().unwrap());

    parser = Parser::new(Lexer::new("-5")).unwrap();
    assert_eq!(UnaryOp{op: Sub, expr: Box::new(Num(5))}, parser.factor().unwrap());

    parser = Parser::new(Lexer::new("+5")).unwrap();
    assert_eq!(UnaryOp{op: Add, expr: Box::new(Num(5))}, parser.factor().unwrap());

    parser = Parser::new(Lexer::new("+(5-2)")).unwrap();
    assert_eq!(UnaryOp{op: Add, expr: Box::new(BinOp{
        left: Box::new(Num(5)),
        op: Sub,
        right: Box::new(Num(2)),
    })}, parser.factor().unwrap());
}

#[test]
fn parser_test_term_valid() {
    let mut parser = Parser::new(Lexer::new("5*2")).unwrap();
    assert_eq!(BinOp{
            left: Box::new(Num(5)),
            op: Mul,
            right: Box::new(Num(2)),
    }, parser.term().unwrap());

    parser = Parser::new(Lexer::new("1 * 10")).unwrap();
    assert_eq!(BinOp{
            left: Box::new(Num(1)),
            op: Mul,
            right: Box::new(Num(10)),
    }, parser.term().unwrap());

    parser = Parser::new(Lexer::new("3*6/2")).unwrap();
    assert_eq!(BinOp{
        left: Box::new(BinOp{
            left: Box::new(Num(3)),
            op: Mul,
            right: Box::new(Num(6)),
        }),
        op: Div,
        right: Box::new(Num(2)),
    }, parser.term().unwrap());

    parser = Parser::new(Lexer::new("5/2")).unwrap();
    assert_eq!(BinOp{
            left: Box::new(Num(5)),
            op: Div,
            right: Box::new(Num(2)),
    }, parser.term().unwrap());
}

#[test]
fn parser_test_expr_valid() {
    let mut parser = Parser::new(Lexer::new("5+2")).unwrap();
    assert_eq!(BinOp{
        left: Box::new(Num(5)),
        op: Add,
        right: Box::new(Num(2)),
    }, parser.expr().unwrap());

    parser = Parser::new(Lexer::new("2 * 10 -6")).unwrap();
    assert_eq!(BinOp{
        left: Box::new(BinOp{
            left: Box::new(Num(2)),
            op: Mul,
            right: Box::new(Num(10)),
        }),
        op: Sub,
        right: Box::new(Num(6)),
    }, parser.expr().unwrap());

    parser = Parser::new(Lexer::new("5+4*8")).unwrap();
    assert_eq!(BinOp{
        left: Box::new(Num(5)),
        op: Add,
        right: Box::new(BinOp{
            left: Box::new(Num(4)),
            op: Mul,
            right: Box::new(Num(8)),
        }),
    }, parser.expr().unwrap());

    parser = Parser::new(Lexer::new("6/(2+1)")).unwrap();
    assert_eq!(BinOp{
        left: Box::new(Num(6)),
        op: Div,
        right: Box::new(BinOp{
            left: Box::new(Num(2)),
            op: Add,
            right: Box::new(Num(1)),
        }),
    }, parser.expr().unwrap());
}

#[test]
fn test_unary_operator() {
    let mut parser = Parser::new(Lexer::new("-3")).unwrap();
    assert_eq!(UnaryOp{
        op: Sub,
        expr: Box::new(Num(3)),
    }, parser.expr().unwrap());

    parser = Parser::new(Lexer::new("+3")).unwrap();
    assert_eq!(UnaryOp{
        op: Add,
        expr: Box::new(Num(3)),
    }, parser.expr().unwrap());
}

#[test]
fn factor_without_operand_is_a_syntax_error() {
    assert_eq!(parser("+").factor(), syntax_error(TokenKind::Integer, TokenKind::EOF));
}

#[test]
fn two_operators_in_a_row_are_a_syntax_error() {
    assert_eq!(parser("5**2").term(), syntax_error(TokenKind::Integer, TokenKind::Mul));
}

#[test]
fn parse_reads_a_program_of_assignments() {
    let expected = Compound {
        children: vec![
            Assign {
                left: Box::new(Var { token: Id("x".to_owned()) }),
                right: Box::new(Num(5)),
            },
            Assign {
                left: Box::new(Var { token: Id("y".to_owned()) }),
                right: Box::new(BinOp {
                    left: Box::new(Var { token: Id("x".to_owned()) }),
                    op: Add,
                    right: Box::new(Num(1)),
                }),
            },
        ],
    };
    assert_eq!(parser("{ x := 5; y := x + 1 }").parse(), Ok(expected));
}

#[test]
fn parse_reads_nested_and_empty_statements() {
    let expected = Compound {
        children: vec![Compound { children: vec![NoOp] }, NoOp],
    };
    assert_eq!(parser("{ {}; }").parse(), Ok(expected));
}

#[test]
fn parse_rejects_trailing_tokens() {
    assert_eq!(parser("{} 1").parse(), syntax_error(TokenKind::EOF, TokenKind::Integer));
}

#[test]
fn end_accepts_only_the_end_of_the_text() {
    let mut parser = parser("1 + 2 )");
    assert_eq!(parser.end(), syntax_error(TokenKind::EOF, TokenKind::Integer).map(|_| ()));
    assert!(parser.expr().is_ok());
    assert_eq!(parser.end(), syntax_error(TokenKind::EOF, TokenKind::RParen).map(|_| ()));
    let mut parser = Parser::new(Lexer::new("1 + 2 ")).unwrap();
    assert!(parser.expr().is_ok());
    assert_eq!(parser.end(), Ok(()));
}

#[test]
fn parse_needs_an_opening_brace() {
    assert_eq!(parser("x := 1").parse(), syntax_error(TokenKind::LCBrac, TokenKind::Id));
}

#[test]
fn unclosed_parenthesis_is_a_syntax_error() {
    assert_eq!(parser("(1+2").expr(), syntax_error(TokenKind::RParen, TokenKind::EOF));
}

#[test]
fn lex_errors_surface_when_the_token_is_pulled() {
    assert!(matches!(
        Parser::new(Lexer::new("$")),
        Err(ParseError::LexError(LexError::InvalidCharacter('$')))
    ));
    assert_eq!(
        parser("1 + ?").expr(),
        Err(ParseError::LexError(LexError::InvalidCharacter('?')))
    );
    // the second token is never pulled
    assert_eq!(parser("1 1 ?").expr(), Ok(Num(1)));
}

#[test]
fn integer_literals_wrap_into_the_signed_range() {
    assert_eq!(parser("9223372036854775807").factor(), Ok(Num(i64::MAX)));
    assert_eq!(parser("9223372036854775808").factor(), Ok(Num(i64::MIN)));
    assert_eq!(parser("18446744073709551615").factor(), Ok(Num(-1)));
    assert!(matches!(
        Parser::new(Lexer::new("18446744073709551616")),
        Err(ParseError::LexError(LexError::IntegerOverflow))
    ));
}

#[test]
fn statements_may_be_empty_anywhere() {
    let assign = |name: &str, value: i64| Assign {
        left: Box::new(Var { token: Id(name.to_owned()) }),
        right: Box::new(Num(value)),
    };
    let expected = Compound { children: vec![NoOp, assign("x", 1), NoOp, assign("y", 2), NoOp] };
    assert_eq!(parser("{ ; x := 1; ; y := 2; }").parse(), Ok(expected));
    assert_eq!(parser("{}").parse(), Ok(Compound { children: vec![NoOp] }));
}

#[test]
fn a_block_must_be_closed() {
    assert_eq!(parser("{ x := 1").parse(), syntax_error(TokenKind::RCBrac, TokenKind::EOF));
    assert_eq!(
        parser("{ x := 1 y := 2 }").parse(),
        syntax_error(TokenKind::RCBrac, TokenKind::Id)
    );
    assert_eq!(parser("{ { x := 1 } ").parse(), syntax_error(TokenKind::RCBrac, TokenKind::EOF));
}

#[test]
fn an_assignment_needs_a_value() {
    assert_eq!(parser("{ x := }").parse(), syntax_error(TokenKind::Integer, TokenKind::RCBrac));
    assert_eq!(parser("{ x }").parse(), syntax_error(TokenKind::Assign, TokenKind::RCBrac));
    assert_eq!(
        parser("{ x := 1; $ }").parse(),
        Err(ParseError::LexError(LexError::InvalidCharacter('$')))
    );
}

#[test]
fn tokens_know_their_kind() {
    assert_eq!(Token::Integer(7).kind(), TokenKind::Integer);
    assert_eq!(Token::Id("x".to_owned()).kind(), TokenKind::Id);
    assert_eq!(Token::Assign.kind(), TokenKind::Assign);
    assert_eq!(Token::Semi.kind(), TokenKind::Semi);
    assert_eq!(Token::EOF.kind(), TokenKind::EOF);
}

#[test]
fn variables_are_factors() {
    let expected = BinOp {
        left: Box::new(Var { token: Id("a".to_owned()) }),
        op: Mul,
        right: Box::new(UnaryOp { op: Sub, expr: Box::new(Var { token: Id("b".to_owned()) }) }),
    };
    assert_eq!(parser("a * -b").expr(), Ok(expected));
}
