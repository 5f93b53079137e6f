use vstd::prelude::*;

verus! {

/// A statement of a program.
#[derive(Debug, PartialEq)]
pub enum Statement {
    Let(LetStatement),
    Return(ReturnStatement),
    Expression(Expression),
}

/// An expression tree; each node owns its operands.
#[derive(Debug, PartialEq)]
pub enum Expression {
    Identifier(Identifier),
    Literal(Literal),
    UnaryMinus(Box<Expression>),
    Not(Box<Expression>),
    Sum(Box<Expression>, Box<Expression>),
    Difference(Box<Expression>, Box<Expression>),
    Product(Box<Expression>, Box<Expression>),
    Quotient(Box<Expression>, Box<Expression>),
    LessThan(Box<Expression>, Box<Expression>),
    GreaterThan(Box<Expression>, Box<Expression>),
    Equal(Box<Expression>, Box<Expression>),
    NotEqual(Box<Expression>, Box<Expression>),
}

/// The root of the tree: statements in source order.
#[derive(Debug, Default, PartialEq)]
pub struct Program {
    pub statements: Vec<Statement>,
}

#[derive(Debug, PartialEq)]
pub struct LetStatement {
    pub ident: Identifier,
    pub value: Expression,
}

#[derive(Debug, PartialEq)]
pub struct ReturnStatement {
    pub value: Expression,
}

#[derive(Debug, Clone, PartialEq)]
pub struct Identifier {
    pub name: String,
}

/// The raw text of an integer constant.
#[derive(Debug, Clone, PartialEq)]
pub struct Literal {
    pub value: String,
}

/// The mathematical model of an expression.
pub enum ExprView {
    Identifier(Seq<char>),
    Literal(Seq<char>),
    UnaryMinus(Box<ExprView>),
    Not(Box<ExprView>),
    Sum(Box<ExprView>, Box<ExprView>),
    Difference(Box<ExprView>, Box<ExprView>),
    Product(Box<ExprView>, Box<ExprView>),
    Quotient(Box<ExprView>, Box<ExprView>),
    LessThan(Box<ExprView>, Box<ExprView>),
    GreaterThan(Box<ExprView>, Box<ExprView>),
    Equal(Box<ExprView>, Box<ExprView>),
    NotEqual(Box<ExprView>, Box<ExprView>),
}

/// The mathematical model of a statement.
pub enum StmtView {
    Let(Seq<char>, ExprView),
    Return(ExprView),
    Expression(ExprView),
}

pub open spec fn expr_view(e: Expression) -> ExprView
    decreases e,
{
    match e {
        Expression::Identifier(i) => ExprView::Identifier(i.name@),
        Expression::Literal(l) => ExprView::Literal(l.value@),
        Expression::UnaryMinus(a) => ExprView::UnaryMinus(Box::new(expr_view(*a))),
        Expression::Not(a) => ExprView::Not(Box::new(expr_view(*a))),
        Expression::Sum(a, b) => ExprView::Sum(Box::new(expr_view(*a)), Box::new(expr_view(*b))),
        Expression::Difference(a, b) => ExprView::Difference(
            Box::new(expr_view(*a)),
            Box::new(expr_view(*b)),
        ),
        Expression::Product(a, b) => ExprView::Product(
            Box::new(expr_view(*a)),
            Box::new(expr_view(*b)),
        ),
        Expression::Quotient(a, b) => ExprView::Quotient(
            Box::new(expr_view(*a)),
            Box::new(expr_view(*b)),
        ),
        Expression::LessThan(a, b) => ExprView::LessThan(
            Box::new(expr_view(*a)),
            Box::new(expr_view(*b)),
        ),
        Expression::GreaterThan(a, b) => ExprView::GreaterThan(
            Box::new(expr_view(*a)),
            Box::new(expr_view(*b)),
        ),
        Expression::Equal(a, b) => ExprView::Equal(Box::new(expr_view(*a)), Box::new(expr_view(*b))),
        Expression::NotEqual(a, b) => ExprView::NotEqual(
            Box::new(expr_view(*a)),
            Box::new(expr_view(*b)),
        ),
    }
}

impl View for Expression {
    type V = ExprView;

    open spec fn view(&self) -> ExprView {
        expr_view(*self)
    }
}

impl View for Statement {
    type V = StmtView;

    open spec fn view(&self) -> StmtView {
        match self {
            Statement::Let(l) => StmtView::Let(l.ident.name@, l.value@),
            Statement::Return(r) => StmtView::Return(r.value@),
            Statement::Expression(e) => StmtView::Expression(e@),
        }
    }
}

impl View for Program {
    type V = Seq<StmtView>;

    open spec fn view(&self) -> Seq<StmtView> {
        self.statements@.map_values(|s: Statement| s@)
    }
}

} // verus!
