use simple_interpreter::arithmetic::Fault;
use simple_interpreter::language::interpreter::{
    lisp_notation, postfix_notation, visit, visit_in, Environment, EvalError,
};
use simple_interpreter::language::lexer::{LexError, Lexer};
use simple_interpreter::language::parser::Parser;
use simple_interpreter::language::parser::ParseError;
use simple_interpreter::language::syn::{ASTNode, Token, TokenKind};
use simple_interpreter::language::{evaluate, run, Error};

fn expression(text: &str) -> ASTNode {
    let mut parser = Parser::new(Lexer::new(text)).unwrap();
    parser.expr().unwrap()
}

fn program(text: &str) -> ASTNode {
    let mut parser = Parser::new(Lexer::new(text)).unwrap();
    parser.parse().unwrap()
}

fn variable(name: &str) -> ASTNode {
    ASTNode::Var { token: Token::Id(name.to_owned()) }
}

#[test]
fn a_number_evaluates_to_itself() {
    assert_eq!(visit(&expression("0")), Ok(Some(0)));
    assert_eq!(visit(&expression("7")), Ok(Some(7)));
    assert_eq!(visit(&expression("007")), Ok(Some(7)));
    assert_eq!(visit(&expression("9223372036854775807")), Ok(Some(i64::MAX)));
}

#[test]
fn expressions_follow_precedence_and_round_towards_zero() {
    assert_eq!(visit(&expression("7 + 3 * (10 / (12 / (3 + 1) - 1))")), Ok(Some(22)));
    assert_eq!(visit(&expression("6/2+1")), Ok(Some(4)));
    assert_eq!(visit(&expression("-6/2+1")), Ok(Some(-2)));
    assert_eq!(visit(&expression("-7/2")), Ok(Some(-3)));
    assert_eq!(visit(&expression("7/-2")), Ok(Some(-3)));
    assert_eq!(visit(&expression("-7/-2")), Ok(Some(3)));
    assert_eq!(visit(&expression("8 - 3 - 2")), Ok(Some(3)));
    assert_eq!(visit(&expression("64 / 4 / 2")), Ok(Some(8)));
    assert_eq!(visit(&expression("2 + 3 * 4")), Ok(Some(14)));
    assert_eq!(visit(&expression("(2 + 3) * 4")), Ok(Some(20)));
    assert_eq!(visit(&expression("5 - - - + - 3")), Ok(Some(8)));
}

#[test]
fn division_by_zero_is_an_arithmetic_error() {
    let expected = Err(EvalError::ArithmeticError(Fault::DivisionByZero));
    assert_eq!(visit(&expression("1/0")), expected);
    assert_eq!(visit(&expression("2 * (3 - 1 / (4 - 4))")), expected);
    assert_eq!(visit(&expression("0/0 + 1")), expected);
    assert_eq!(visit(&program("{ x := 0; y := 5 / x }")), expected);
}

#[test]
fn overflow_is_an_arithmetic_error() {
    let expected = Err(EvalError::ArithmeticError(Fault::Overflow));
    assert_eq!(visit(&expression("9223372036854775807 + 1")), expected);
    assert_eq!(visit(&expression("0 - 9223372036854775807 - 2")), expected);
    assert_eq!(visit(&expression("4611686018427387904 * 2")), expected);
    assert_eq!(visit(&expression("9223372036854775808 / -1")), expected);
    assert_eq!(visit(&expression("-9223372036854775808")), expected);
    assert_eq!(visit(&expression("9223372036854775807 + 0")), Ok(Some(i64::MAX)));
    assert_eq!(visit(&expression("0 - 9223372036854775807 - 1")), Ok(Some(i64::MIN)));
}

#[test]
fn assigning_then_reading_a_variable() {
    assert_eq!(visit(&program("{ x := 5; y := x + 1 }")), Ok(Some(6)));

    let block = ASTNode::Compound {
        children: vec![
            ASTNode::Assign { left: Box::new(variable("x")), right: Box::new(ASTNode::Num(5)) },
            ASTNode::BinOp {
                left: Box::new(variable("x")),
                op: Token::Add,
                right: Box::new(ASTNode::Num(1)),
            },
        ],
    };
    assert_eq!(visit(&block), Ok(Some(6)));
}

#[test]
fn a_block_has_the_value_of_its_last_statement() {
    assert_eq!(visit(&program("{}")), Ok(None));
    assert_eq!(visit(&program("{ x := 5; }")), Ok(None));
    assert_eq!(visit(&program("{ x := 5; { y := x * 2 } }")), Ok(Some(10)));
    assert_eq!(visit(&program("{ x := 1; x := x + 1; x := x + 1 }")), Ok(Some(3)));
    assert_eq!(visit(&ASTNode::Compound { children: vec![] }), Ok(None));
    assert_eq!(visit(&ASTNode::NoOp), Ok(None));
}

#[test]
fn reading_an_unassigned_variable_is_an_error() {
    assert_eq!(
        visit(&expression("x + 1")),
        Err(EvalError::UnboundVariableError("x".to_owned()))
    );
    assert_eq!(
        visit(&program("{ x := 1; y := x + z }")),
        Err(EvalError::UnboundVariableError("z".to_owned()))
    );
    assert_eq!(
        visit(&program("{ größe := größe + 1 }")),
        Err(EvalError::UnboundVariableError("größe".to_owned()))
    );
    assert_eq!(visit(&program("{ größe := 2; y := größe * 21 }")), Ok(Some(42)));
}

#[test]
fn the_environment_keeps_what_was_assigned() {
    let mut env = Environment::new();
    assert_eq!(env.get(&"x".to_owned()), None);
    assert_eq!(visit_in(&program("{ x := 2; y := x * x; x := y + x }"), &mut env), Ok(Some(6)));
    assert_eq!(env.get(&"x".to_owned()), Some(6));
    assert_eq!(env.get(&"y".to_owned()), Some(4));
    assert_eq!(env.get(&"z".to_owned()), None);

    // a second walk sees the bindings of the first
    assert_eq!(visit_in(&expression("x + y"), &mut env), Ok(Some(10)));

    env.set("z".to_owned(), -1);
    env.set("x".to_owned(), 100);
    assert_eq!(visit_in(&expression("x * z + y"), &mut env), Ok(Some(-96)));
}

#[test]
fn the_environment_keeps_what_was_assigned_before_an_error() {
    let mut env = Environment::new();
    assert_eq!(
        visit_in(&program("{ a := 1; b := 2 / 0; c := 3 }"), &mut env),
        Err(EvalError::ArithmeticError(Fault::DivisionByZero))
    );
    assert_eq!(env.get(&"a".to_owned()), Some(1));
    assert_eq!(env.get(&"b".to_owned()), None);
    assert_eq!(env.get(&"c".to_owned()), None);
}

#[test]
fn operands_are_evaluated_from_left_to_right() {
    let assign = |name: &str, value: i64| ASTNode::Assign {
        left: Box::new(variable(name)),
        right: Box::new(ASTNode::Num(value)),
    };
    // (x := 4) - x: the right operand reads what the left one has assigned
    let node = ASTNode::BinOp {
        left: Box::new(assign("x", 4)),
        op: Token::Sub,
        right: Box::new(variable("x")),
    };
    assert_eq!(visit(&node), Ok(Some(0)));
    // x - (x := 4): the left operand comes first and finds nothing
    let node = ASTNode::BinOp {
        left: Box::new(variable("x")),
        op: Token::Sub,
        right: Box::new(assign("x", 4)),
    };
    assert_eq!(visit(&node), Err(EvalError::UnboundVariableError("x".to_owned())));
}

#[test]
fn nodes_that_are_out_of_place_are_not_supported() {
    let unsupported = Err(EvalError::UnsupportedNodeError);
    let one = || Box::new(ASTNode::Num(1));
    assert_eq!(visit(&ASTNode::BinOp { left: one(), op: Token::LParen, right: one() }), unsupported);
    assert_eq!(visit(&ASTNode::BinOp { left: one(), op: Token::Integer(3), right: one() }), unsupported);
    assert_eq!(visit(&ASTNode::UnaryOp { op: Token::Mul, expr: one() }), unsupported);
    assert_eq!(visit(&ASTNode::Var { token: Token::Add }), unsupported);
    assert_eq!(visit(&ASTNode::Assign { left: one(), right: one() }), unsupported);
    assert_eq!(
        visit(&ASTNode::Assign { left: Box::new(ASTNode::Var { token: Token::EOF }), right: one() }),
        unsupported
    );
    // an operand without a value
    assert_eq!(
        visit(&ASTNode::BinOp { left: Box::new(ASTNode::NoOp), op: Token::Add, right: one() }),
        unsupported
    );
    assert_eq!(
        visit(&ASTNode::UnaryOp { op: Token::Sub, expr: Box::new(ASTNode::NoOp) }),
        unsupported
    );
    assert_eq!(
        visit(&ASTNode::Assign { left: Box::new(variable("x")), right: Box::new(ASTNode::NoOp) }),
        unsupported
    );
}

#[test]
fn evaluating_a_tree_twice_gives_the_same() {
    for text in ["1 + 2 * 3", "1 / 0", "x", "-(4 - 6) * 7"] {
        let node = expression(text);
        let first = visit(&node);
        let second = visit(&node);
        assert_eq!(first, second);
    }
    let node = program("{ x := 3; x := x * x }");
    assert_eq!(visit(&node), Ok(Some(9)));
    assert_eq!(visit(&node), Ok(Some(9)));
    assert_eq!(visit(&node.clone()), Ok(Some(9)));
}

#[test]
fn copies_of_trees_and_tokens_are_equal() {
    let node = program("{ x := 3; { y := -x * (2 + x) }; }");
    assert_eq!(node.clone(), node);
    assert_eq!(node.deep_copy(), node);
    let token = Token::Id("name".to_owned());
    assert_eq!(token.clone(), token);
    let error = EvalError::UnboundVariableError("name".to_owned());
    assert_eq!(error.clone(), error);
}

#[test]
fn expressions_in_postfix_notation() {
    assert_eq!(
        postfix_notation(&expression("(5 + 3) * 12 / 3")),
        Ok("5 3 + 12 * 3 /".to_owned())
    );
    assert_eq!(postfix_notation(&expression("2 + 3 * 4 - 5")), Ok("2 3 4 * + 5 -".to_owned()));
    assert_eq!(postfix_notation(&expression("17")), Ok("17".to_owned()));
    assert_eq!(postfix_notation(&ASTNode::Num(-4)), Ok("-4".to_owned()));
    assert_eq!(
        postfix_notation(&expression("18446744073709551615 / 1")),
        Ok("-1 1 /".to_owned())
    );
}

#[test]
fn expressions_in_lisp_notation() {
    assert_eq!(
        lisp_notation(&expression("(5 + 3) * 12 / 3")),
        Ok("(/ (* (+ 5 3) 12) 3)".to_owned())
    );
    assert_eq!(lisp_notation(&expression("2 + 3 * 4 - 5")), Ok("(- (+ 2 (* 3 4)) 5)".to_owned()));
    assert_eq!(lisp_notation(&expression("1007")), Ok("1007".to_owned()));
    assert_eq!(lisp_notation(&ASTNode::Num(i64::MIN)), Ok("-9223372036854775808".to_owned()));
}

#[test]
fn notations_support_binary_operations_over_numbers_only() {
    let unsupported = Err(EvalError::UnsupportedNodeError);
    for node in [
        expression("-5"),
        expression("1 + x"),
        expression("2 * (3 + -1)"),
        program("{ x := 1 }"),
        program("{}"),
        ASTNode::NoOp,
        ASTNode::BinOp {
            left: Box::new(ASTNode::Num(1)),
            op: Token::LParen,
            right: Box::new(ASTNode::Num(2)),
        },
    ] {
        assert_eq!(postfix_notation(&node), unsupported);
        assert_eq!(lisp_notation(&node), unsupported);
    }
}

#[test]
fn evaluate_goes_from_text_to_value() {
    assert_eq!(evaluate("7 + 3 * (10 / (12 / (3 + 1) - 1))"), Ok(Some(22)));
    assert_eq!(evaluate("6/2+1"), Ok(Some(4)));
    assert_eq!(evaluate("-6/2+1"), Ok(Some(-2)));
    assert_eq!(evaluate("  42  "), Ok(Some(42)));
    assert_eq!(
        evaluate("1 2"),
        Err(Error::Parse(ParseError::SyntaxError {
            expected: TokenKind::EOF,
            found: TokenKind::Integer
        }))
    );
    assert_eq!(
        evaluate("1/0"),
        Err(Error::Eval(EvalError::ArithmeticError(Fault::DivisionByZero)))
    );
    assert_eq!(
        evaluate("x"),
        Err(Error::Eval(EvalError::UnboundVariableError("x".to_owned())))
    );
    assert_eq!(
        evaluate("5**2"),
        Err(Error::Parse(ParseError::SyntaxError {
            expected: TokenKind::Integer,
            found: TokenKind::Mul
        }))
    );
    assert_eq!(
        evaluate(""),
        Err(Error::Parse(ParseError::SyntaxError {
            expected: TokenKind::Integer,
            found: TokenKind::EOF
        }))
    );
    assert_eq!(
        evaluate("#"),
        Err(Error::Parse(ParseError::LexError(LexError::InvalidCharacter('#'))))
    );
    assert_eq!(
        evaluate("1 #"),
        Err(Error::Parse(ParseError::LexError(LexError::InvalidCharacter('#'))))
    );
}

#[test]
fn run_goes_from_program_to_value() {
    assert_eq!(run("{ x := 5; y := x + 1 }"), Ok(Some(6)));
    assert_eq!(run("{ a := 2; b := a * a; { c := b - a; c := c * c }; }"), Ok(None));
    assert_eq!(run("{ a := 2; b := a * a; { c := b - a; c := c * c } }"), Ok(Some(4)));
    assert_eq!(
        run("{ x := y }"),
        Err(Error::Eval(EvalError::UnboundVariableError("y".to_owned())))
    );
    assert_eq!(
        run("{ x := 1 } }"),
        Err(Error::Parse(ParseError::SyntaxError {
            expected: TokenKind::EOF,
            found: TokenKind::RCBrac
        }))
    );
    assert_eq!(
        run("{ x 1 }"),
        Err(Error::Parse(ParseError::SyntaxError {
            expected: TokenKind::Assign,
            found: TokenKind::Integer
        }))
    );
    assert_eq!(
        run("{ x = 1 }"),
        Err(Error::Parse(ParseError::LexError(LexError::InvalidCharacter('='))))
    );
    assert_eq!(
        run("x := 1"),
        Err(Error::Parse(ParseError::SyntaxError {
            expected: TokenKind::LCBrac,
            found: TokenKind::Id
        }))
    );
}
