//! The syntax tree: expressions, statements, operators and literals.
use crate::rat::Number;
use vstd::prelude::*;

verus! {

/// A literal value as written in source text.
#[derive(Debug, PartialEq)]
pub enum Literal {
    Number(Number),
    Text(String),
    Boolean(bool),
    Nil,
}

/// A unary or binary operator. `Almost` is the unary `~`; `SomeKw` is the
/// presence-test keyword `some`.
#[derive(Debug, Clone, Copy, PartialEq, Eq, Structural)]
pub enum Operator {
    Minus,
    Almost,
    Plus,
    Multiply,
    Divide,
    Modulus,
    Greater,
    Less,
    GreaterEqual,
    LessEqual,
    EqualEqual,
    NotEqual,
    And,
    Or,
    Not,
    SomeKw,
}

/// An expression; it owns its sub-expressions.
#[derive(Debug, PartialEq)]
pub enum Expression {
    Literal(Literal),
    Variable(String),
    Binary(Box<Expression>, Operator, Box<Expression>),
    Unary(Operator, Box<Expression>),
    Grouping(Box<Expression>),
    FunctionCall(Box<Expression>, Vec<Expression>),
}

/// A statement.
#[derive(Debug, PartialEq)]
pub enum Statement {
    ExpressionStatement(Expression),
    PrintStatement(Expression),
    VariableDeclaration(String, Option<Expression>),
    Assignment { target_name: String, value: Expression },
    Block(Vec<Statement>),
    IfStatement(Expression, Box<Statement>, Option<Box<Statement>>),
    WhileStatement(Expression, Box<Statement>),
    ForStatement(Box<Statement>, Expression, Box<Statement>, Box<Statement>),
    FunctionDeclaration { name: String, params: Vec<String>, body: Vec<Statement> },
    ReturnStatement(Option<Expression>),
}

/// The mathematical image of a literal.
pub enum LitView {
    Number(Number),
    Text(Seq<char>),
    Boolean(bool),
    Nil,
}

/// The mathematical image of an expression.
pub enum ExprView {
    Literal(LitView),
    Variable(Seq<char>),
    Binary(Box<ExprView>, Operator, Box<ExprView>),
    Unary(Operator, Box<ExprView>),
    Grouping(Box<ExprView>),
    FunctionCall(Box<ExprView>, Seq<ExprView>),
}

/// The mathematical image of a statement.
pub enum StmtView {
    ExpressionStatement(ExprView),
    PrintStatement(ExprView),
    VariableDeclaration(Seq<char>, Option<ExprView>),
    Assignment { target_name: Seq<char>, value: ExprView },
    Block(Seq<StmtView>),
    IfStatement(ExprView, Box<StmtView>, Option<Box<StmtView>>),
    WhileStatement(ExprView, Box<StmtView>),
    ForStatement(Box<StmtView>, ExprView, Box<StmtView>, Box<StmtView>),
    FunctionDeclaration { name: Seq<char>, params: Seq<Seq<char>>, body: Seq<StmtView> },
    ReturnStatement(Option<ExprView>),
}

impl View for Literal {
    type V = LitView;

    open spec fn view(&self) -> LitView {
        lit_view(*self)
    }
}

/// The mathematical image of a literal.
pub open spec fn lit_view(l: Literal) -> LitView {
    match l {
        Literal::Number(n) => LitView::Number(n),
        Literal::Text(s) => LitView::Text(s@),
        Literal::Boolean(b) => LitView::Boolean(b),
        Literal::Nil => LitView::Nil,
    }
}

/// The mathematical image of an expression.
pub open spec fn expr_view(e: Expression) -> ExprView
    decreases e,
{
    match e {
        Expression::Literal(l) => ExprView::Literal(lit_view(l)),
        Expression::Variable(n) => ExprView::Variable(n@),
        Expression::Binary(l, op, r) => ExprView::Binary(
            Box::new(expr_view(*l)),
            op,
            Box::new(expr_view(*r)),
        ),
        Expression::Unary(op, e1) => ExprView::Unary(op, Box::new(expr_view(*e1))),
        Expression::Grouping(e1) => ExprView::Grouping(Box::new(expr_view(*e1))),
        Expression::FunctionCall(c, args) => ExprView::FunctionCall(
            Box::new(expr_view(*c)),
            exprs_view(args@),
        ),
    }
}

/// The views of a sequence of expressions.
pub open spec fn exprs_view(s: Seq<Expression>) -> Seq<ExprView>
    decreases s,
{
    if s.len() == 0 {
        Seq::empty()
    } else {
        exprs_view(s.drop_last()).push(expr_view(s.last()))
    }
}

impl View for Expression {
    type V = ExprView;

    open spec fn view(&self) -> ExprView {
        expr_view(*self)
    }
}

/// The mathematical image of a statement.
pub open spec fn stmt_view(s: Statement) -> StmtView
    decreases s,
{
    match s {
        Statement::ExpressionStatement(e) => StmtView::ExpressionStatement(expr_view(e)),
        Statement::PrintStatement(e) => StmtView::PrintStatement(expr_view(e)),
        Statement::VariableDeclaration(n, init) => StmtView::VariableDeclaration(
            n@,
            match init {
                Option::Some(e) => Option::Some(expr_view(e)),
                Option::None => Option::None,
            },
        ),
        Statement::Assignment { target_name, value } => StmtView::Assignment {
            target_name: target_name@,
            value: expr_view(value),
        },
        Statement::Block(ss) => StmtView::Block(stmts_view(ss@)),
        Statement::IfStatement(c, t, e) => StmtView::IfStatement(
            expr_view(c),
            Box::new(stmt_view(*t)),
            match e {
                Option::Some(s1) => Option::Some(Box::new(stmt_view(*s1))),
                Option::None => Option::None,
            },
        ),
        Statement::WhileStatement(c, b) => StmtView::WhileStatement(
            expr_view(c),
            Box::new(stmt_view(*b)),
        ),
        Statement::ForStatement(i, c, u, b) => StmtView::ForStatement(
            Box::new(stmt_view(*i)),
            expr_view(c),
            Box::new(stmt_view(*u)),
            Box::new(stmt_view(*b)),
        ),
        Statement::FunctionDeclaration { name, params, body } => StmtView::FunctionDeclaration {
            name: name@,
            params: names_view(params@),
            body: stmts_view(body@),
        },
        Statement::ReturnStatement(e) => StmtView::ReturnStatement(
            match e {
                Option::Some(x) => Option::Some(expr_view(x)),
                Option::None => Option::None,
            },
        ),
    }
}

/// The views of a sequence of statements.
pub open spec fn stmts_view(s: Seq<Statement>) -> Seq<StmtView>
    decreases s,
{
    if s.len() == 0 {
        Seq::empty()
    } else {
        stmts_view(s.drop_last()).push(stmt_view(s.last()))
    }
}

/// The views of a sequence of names.
pub open spec fn names_view(s: Seq<String>) -> Seq<Seq<char>> {
    s.map_values(|n: String| n@)
}

impl View for Statement {
    type V = StmtView;

    open spec fn view(&self) -> StmtView {
        stmt_view(*self)
    }
}

} // verus!
