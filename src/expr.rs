use vstd::prelude::*;

verus! {

/// The shape of an expression tree, with each literal as the text it was
/// read from.
pub enum Tree {
    Num(Seq<char>),
    Add(Box<Tree>, Box<Tree>),
    Sub(Box<Tree>, Box<Tree>),
    Mul(Box<Tree>, Box<Tree>),
    Div(Box<Tree>, Box<Tree>),
}

/// An arithmetic expression tree.
///
/// `Float` holds a numeric literal as the text that was read; its value is
/// that text read as a 64-bit floating-point literal. Each operator node
/// owns its two operands.
#[derive(Debug)]
pub enum Expr {
    Float(String),
    Add(Box<Expr>, Box<Expr>),
    Sub(Box<Expr>, Box<Expr>),
    Mul(Box<Expr>, Box<Expr>),
    Div(Box<Expr>, Box<Expr>),
}

impl Expr {
    /// The tree shape of this expression.
    pub open spec fn tree(&self) -> Tree
        decreases self,
    {
        match self {
            Expr::Float(t) => Tree::Num(t@),
            Expr::Add(l, r) => Tree::Add(Box::new(l.tree()), Box::new(r.tree())),
            Expr::Sub(l, r) => Tree::Sub(Box::new(l.tree()), Box::new(r.tree())),
            Expr::Mul(l, r) => Tree::Mul(Box::new(l.tree()), Box::new(r.tree())),
            Expr::Div(l, r) => Tree::Div(Box::new(l.tree()), Box::new(r.tree())),
        }
    }
}

impl View for Expr {
    type V = Tree;

    open spec fn view(&self) -> Tree {
        self.tree()
    }
}

/// Errors that can occur while evaluating an expression tree.
#[derive(Debug, Clone, Copy, PartialEq, Eq, Structural)]
pub enum EvaluationError {
    DivisionByZero,
}

/// A syntax error: at character `position` of the input a factor was due,
/// and neither a parenthesised expression nor a numeric literal starts there.
#[derive(Debug, Clone, Copy, PartialEq, Eq, Structural)]
pub struct ParseError {
    pub position: usize,
}

} // verus!
