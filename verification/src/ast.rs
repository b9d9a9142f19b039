//! The abstract syntax of the little relational language: programs are
//! lists of named procedures and functions over relation-valued expressions.

use vstd::prelude::*;

verus! {

/// A whole source file: its items in order.
pub struct Program {
    pub items: Vec<Item>,
}

/// A top-level item.
pub enum Item {
    /// A procedure with parameters, declared locals and a statement body.
    Procedure { name: String, params: Vec<String>, decls: Vec<String>, body: Vec<Stmt> },
    /// A function defined by a single expression.
    Function { name: String, params: Vec<String>, value: Expr },
}

/// A statement of a procedure body.
pub enum Stmt {
    Assign { lhs: String, rhs: Expr },
    While { cond: Expr, body: Vec<Stmt> },
    Return { value: Expr },
    If { cond: Expr, then_body: Vec<Stmt>, else_body: Option<Vec<Stmt>> },
}

/// A relation-valued expression.
pub enum Expr {
    Ident { ident: String },
    Call { func: String, args: Vec<Expr> },
    Negate { value: Box<Expr> },
    BinExpr { left: Box<Expr>, op: BinOp, right: Box<Expr> },
    Transpose { value: Box<Expr> },
}

/// The binary operators of the expression grammar.
pub enum BinOp {
    Union,
    Intersect,
    Compose,
    Sum,
}

impl Item {
    /// The name an item was declared under.
    pub open spec fn spec_name(&self) -> Seq<char> {
        match self {
            Item::Procedure { name, .. } => name@,
            Item::Function { name, .. } => name@,
        }
    }

    /// The name an item was declared under.
    pub fn name(&self) -> (r: &str)
        ensures
            r@ == self.spec_name(),
    {
        match self {
            Item::Procedure { name, .. } => name.as_str(),
            Item::Function { name, .. } => name.as_str(),
        }
    }
}

} // verus!
