//! Tokens and syntax tree nodes, each with the mathematical value that the
//! contracts of the lexer, the parser and the evaluator speak of.

use vstd::prelude::*;

verus! {

/// A lexical unit of the source text.
#[derive(Debug, Eq, PartialEq)]
pub enum Token {
    Integer(u64),
    Id(String),
    // +, -, *, /, (, ), {, }, :=, ;
    Add,
    Sub,
    Mul,
    Div,
    LParen,
    RParen,
    LCBrac,
    RCBrac,
    Assign,
    Semi,
    EOF,
}

/// The kind of a token: its variant without what it carries.
#[derive(Debug, PartialEq, Eq, Clone, Copy, Structural)]
pub enum TokenKind {
    Integer,
    Id,
    Add,
    Sub,
    Mul,
    Div,
    LParen,
    RParen,
    LCBrac,
    RCBrac,
    Assign,
    Semi,
    EOF,
}

/// What a [`Token`] stands for in contracts: an identifier is the sequence of
/// its characters.
pub enum SpecToken {
    Integer(u64),
    Id(Seq<char>),
    Add,
    Sub,
    Mul,
    Div,
    LParen,
    RParen,
    LCBrac,
    RCBrac,
    Assign,
    Semi,
    EOF,
}

impl SpecToken {
    pub open spec fn kind(self) -> TokenKind {
        match self {
            SpecToken::Integer(_) => TokenKind::Integer,
            SpecToken::Id(_) => TokenKind::Id,
            SpecToken::Add => TokenKind::Add,
            SpecToken::Sub => TokenKind::Sub,
            SpecToken::Mul => TokenKind::Mul,
            SpecToken::Div => TokenKind::Div,
            SpecToken::LParen => TokenKind::LParen,
            SpecToken::RParen => TokenKind::RParen,
            SpecToken::LCBrac => TokenKind::LCBrac,
            SpecToken::RCBrac => TokenKind::RCBrac,
            SpecToken::Assign => TokenKind::Assign,
            SpecToken::Semi => TokenKind::Semi,
            SpecToken::EOF => TokenKind::EOF,
        }
    }

    /// `+`, `-`, `*` or `/`: the operators a binary node may carry.
    pub open spec fn is_binary_operator(self) -> bool {
        self is Add || self is Sub || self is Mul || self is Div
    }

    /// The character that writes an operator.
    pub open spec fn operator_char(self) -> char
        recommends
            self.is_binary_operator(),
    {
        match self {
            SpecToken::Add => '+',
            SpecToken::Sub => '-',
            SpecToken::Mul => '*',
            _ => '/',
        }
    }

    /// `+` or `-`: the operators a unary node may carry.
    pub open spec fn is_unary_operator(self) -> bool {
        self is Add || self is Sub
    }
}

impl View for Token {
    type V = SpecToken;

    open spec fn view(&self) -> SpecToken {
        match self {
            Token::Integer(value) => SpecToken::Integer(*value),
            Token::Id(name) => SpecToken::Id(name@),
            Token::Add => SpecToken::Add,
            Token::Sub => SpecToken::Sub,
            Token::Mul => SpecToken::Mul,
            Token::Div => SpecToken::Div,
            Token::LParen => SpecToken::LParen,
            Token::RParen => SpecToken::RParen,
            Token::LCBrac => SpecToken::LCBrac,
            Token::RCBrac => SpecToken::RCBrac,
            Token::Assign => SpecToken::Assign,
            Token::Semi => SpecToken::Semi,
            Token::EOF => SpecToken::EOF,
        }
    }
}

impl Token {
    /// The variant of this token.
    pub fn kind(&self) -> (kind: TokenKind)
        ensures
            kind == self@.kind(),
    {
        match self {
            Token::Integer(_) => TokenKind::Integer,
            Token::Id(_) => TokenKind::Id,
            Token::Add => TokenKind::Add,
            Token::Sub => TokenKind::Sub,
            Token::Mul => TokenKind::Mul,
            Token::Div => TokenKind::Div,
            Token::LParen => TokenKind::LParen,
            Token::RParen => TokenKind::RParen,
            Token::LCBrac => TokenKind::LCBrac,
            Token::RCBrac => TokenKind::RCBrac,
            Token::Assign => TokenKind::Assign,
            Token::Semi => TokenKind::Semi,
            Token::EOF => TokenKind::EOF,
        }
    }
}

impl Clone for Token {
    fn clone(&self) -> (copy: Token)
        ensures
            copy@ == self@,
    {
        match self {
            Token::Integer(value) => Token::Integer(*value),
            Token::Id(name) => Token::Id(name.clone()),
            Token::Add => Token::Add,
            Token::Sub => Token::Sub,
            Token::Mul => Token::Mul,
            Token::Div => Token::Div,
            Token::LParen => Token::LParen,
            Token::RParen => Token::RParen,
            Token::LCBrac => Token::LCBrac,
            Token::RCBrac => Token::RCBrac,
            Token::Assign => Token::Assign,
            Token::Semi => Token::Semi,
            Token::EOF => Token::EOF,
        }
    }
}

/// A node of the syntax tree. Every subtree is owned by its parent.
#[derive(Debug, PartialEq)]
pub enum ASTNode {
    BinOp { left: Box<ASTNode>, op: Token, right: Box<ASTNode> },
    UnaryOp { op: Token, expr: Box<ASTNode> },
    Compound { children: Vec<ASTNode> },
    Assign { left: Box<ASTNode>, right: Box<ASTNode> },
    Var { token: Token },
    Num(i64),
    NoOp,
}

/// What an [`ASTNode`] stands for in contracts: the same tree over
/// [`SpecToken`]s, with a sequence for the children of a block.
pub enum SpecNode {
    BinOp { left: Box<SpecNode>, op: SpecToken, right: Box<SpecNode> },
    UnaryOp { op: SpecToken, expr: Box<SpecNode> },
    Compound { children: Seq<SpecNode> },
    Assign { left: Box<SpecNode>, right: Box<SpecNode> },
    Var { token: SpecToken },
    Num(i64),
    NoOp,
}

impl SpecNode {
    /// The shape every tree built by the parser has: a binary node carries one
    /// of `+ - * /`, a unary node `+` or `-`, a variable an identifier, and the
    /// target of an assignment is a variable.
    pub open spec fn well_formed(self) -> bool
        decreases self,
    {
        match self {
            SpecNode::BinOp { left, op, right } => {
                &&& op.is_binary_operator()
                &&& left.well_formed()
                &&& right.well_formed()
            },
            SpecNode::UnaryOp { op, expr } => op.is_unary_operator() && expr.well_formed(),
            SpecNode::Compound { children } => forall|i: int|
                0 <= i < children.len() ==> (#[trigger] children[i]).well_formed(),
            SpecNode::Assign { left, right } => {
                &&& *left is Var
                &&& left.well_formed()
                &&& right.well_formed()
            },
            SpecNode::Var { token } => token is Id,
            SpecNode::Num(_) => true,
            SpecNode::NoOp => true,
        }
    }

    /// An expression as the parser builds it: numbers and variables under
    /// signs and arithmetic operators.
    pub open spec fn is_expression(self) -> bool
        decreases self,
    {
        match self {
            SpecNode::BinOp { left, op, right } => {
                &&& op.is_binary_operator()
                &&& left.is_expression()
                &&& right.is_expression()
            },
            SpecNode::UnaryOp { op, expr } => op.is_unary_operator() && expr.is_expression(),
            SpecNode::Var { token } => token is Id,
            SpecNode::Num(_) => true,
            _ => false,
        }
    }

    /// A statement as the parser builds it: a block of statements, the
    /// assignment of an expression to a variable, or the empty statement.
    pub open spec fn is_statement(self) -> bool
        decreases self,
    {
        match self {
            SpecNode::Compound { children } => forall|i: int|
                0 <= i < children.len() ==> (#[trigger] children[i]).is_statement(),
            SpecNode::Assign { left, right } => {
                &&& *left matches SpecNode::Var { token }
                &&& token is Id
                &&& right.is_expression()
            },
            SpecNode::NoOp => true,
            _ => false,
        }
    }

    /// An expression is well formed.
    pub proof fn lemma_expression_well_formed(self)
        requires
            self.is_expression(),
        ensures
            self.well_formed(),
        decreases self,
    {
        match self {
            SpecNode::BinOp { left, op, right } => {
                left.lemma_expression_well_formed();
                right.lemma_expression_well_formed();
            },
            SpecNode::UnaryOp { op, expr } => {
                expr.lemma_expression_well_formed();
            },
            _ => {},
        }
    }

    /// A statement is well formed.
    pub proof fn lemma_statement_well_formed(self)
        requires
            self.is_statement(),
        ensures
            self.well_formed(),
        decreases self,
    {
        match self {
            SpecNode::Compound { children } => {
                assert forall|i: int| 0 <= i < children.len() implies (
                #[trigger] children[i]).well_formed() by {
                    children[i].lemma_statement_well_formed();
                }
            },
            SpecNode::Assign { left, right } => {
                reveal_with_fuel(SpecNode::well_formed, 2);
                right.lemma_expression_well_formed();
            },
            _ => {},
        }
    }

    /// An arithmetic expression: numbers under unary and binary operators,
    /// with no variable, assignment or block anywhere in the tree.
    pub open spec fn is_arithmetic(self) -> bool
        decreases self,
    {
        match self {
            SpecNode::BinOp { left, op, right } => {
                &&& op.is_binary_operator()
                &&& left.is_arithmetic()
                &&& right.is_arithmetic()
            },
            SpecNode::UnaryOp { op, expr } => op.is_unary_operator() && expr.is_arithmetic(),
            SpecNode::Num(_) => true,
            _ => false,
        }
    }
}

/// The trees that a sequence of nodes stands for, one for one.
pub open spec fn node_views(nodes: Seq<ASTNode>) -> Seq<SpecNode> {
    Seq::new(nodes.len(), |i: int| nodes[i]@)
}

impl ASTNode {
    /// The tree this node stands for.
    pub open spec fn model(self) -> SpecNode
        decreases self,
    {
        match self {
            ASTNode::BinOp { left, op, right } => SpecNode::BinOp {
                left: Box::new(left.model()),
                op: op@,
                right: Box::new(right.model()),
            },
            ASTNode::UnaryOp { op, expr } => SpecNode::UnaryOp {
                op: op@,
                expr: Box::new(expr.model()),
            },
            ASTNode::Compound { children } => SpecNode::Compound {
                children: Seq::new(
                    children@.len(),
                    |i: int|
                        if 0 <= i < children@.len() {
                            children@[i].model()
                        } else {
                            SpecNode::NoOp
                        },
                ),
            },
            ASTNode::Assign { left, right } => SpecNode::Assign {
                left: Box::new(left.model()),
                right: Box::new(right.model()),
            },
            ASTNode::Var { token } => SpecNode::Var { token: token@ },
            ASTNode::Num(value) => SpecNode::Num(value),
            ASTNode::NoOp => SpecNode::NoOp,
        }
    }

    /// The children of a block stand for themselves, one for one.
    pub proof fn lemma_compound_view(children: Vec<ASTNode>)
        ensures
            (ASTNode::Compound { children })@ == (SpecNode::Compound {
                children: node_views(children@),
            }),
    {
        let node = ASTNode::Compound { children };
        assert(node@->children =~= node_views(children@));
    }

    /// A copy of the whole tree.
    pub fn deep_copy(&self) -> (copy: ASTNode)
        ensures
            copy@ == self@,
        decreases self,
    {
        match self {
            ASTNode::BinOp { left, op, right } => ASTNode::BinOp {
                left: Box::new(left.deep_copy()),
                op: op.clone(),
                right: Box::new(right.deep_copy()),
            },
            ASTNode::UnaryOp { op, expr } => ASTNode::UnaryOp {
                op: op.clone(),
                expr: Box::new(expr.deep_copy()),
            },
            ASTNode::Compound { children } => {
                let mut copies: Vec<ASTNode> = Vec::new();
                let mut i: usize = 0;
                while i < children.len()
                    invariant
                        i <= children.len(),
                        copies.len() == i,
                        forall|j: int| 0 <= j < i ==> copies@[j]@ == children@[j]@,
                        *self is Compound,
                        self->children == *children,
                    decreases children.len() - i,
                {
                    copies.push(children[i].deep_copy());
                    i += 1;
                }
                proof {
                    Self::lemma_compound_view(copies);
                    Self::lemma_compound_view(*children);
                    assert(node_views(copies@) =~= node_views(children@));
                }
                ASTNode::Compound { children: copies }
            },
            ASTNode::Assign { left, right } => ASTNode::Assign {
                left: Box::new(left.deep_copy()),
                right: Box::new(right.deep_copy()),
            },
            ASTNode::Var { token } => ASTNode::Var { token: token.clone() },
            ASTNode::Num(value) => ASTNode::Num(*value),
            ASTNode::NoOp => ASTNode::NoOp,
        }
    }
}

impl View for ASTNode {
    type V = SpecNode;

    open spec fn view(&self) -> SpecNode {
        self.model()
    }
}

impl Clone for ASTNode {
    fn clone(&self) -> (copy: ASTNode)
        ensures
            copy@ == self@,
    {
        self.deep_copy()
    }
}

} // verus!
