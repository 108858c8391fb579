use vstd::prelude::*;

verus! {

/// The type of a condition expression. `Unknown` marks a variable whose
/// type has not been bound yet.
#[derive(Clone, Copy, Debug, PartialEq, Eq, Structural)]
pub enum Ty {
    Int,
    Bool,
    Unknown,
}

#[derive(Clone, Copy, Debug, PartialEq, Eq, Structural)]
pub enum BinOp {
    Add,
    Sub,
    Mul,
    Div,
    Mod,
    Eq,
    Ne,
    Lt,
    Le,
    Gt,
    Ge,
    And,
    Or,
    Implies,
}

#[derive(Clone, Copy, Debug, PartialEq, Eq, Structural)]
pub enum UnOp {
    Not,
    Neg,
}

/// A condition expression tree.
#[derive(Debug)]
pub enum Expr {
    IntLit(u64),
    BoolLit(bool),
    Var(String, Ty),
    /// The result of the call at statement `k` of block `b`, as a variable
    /// of its own: no condition text and no other call can name it.
    Fresh(usize, usize, Ty),
    Binary(BinOp, Box<Expr>, Box<Expr>),
    Unary(UnOp, Box<Expr>),
}

/// No variable of `e` carries a type yet.
pub open spec fn is_untyped(e: Expr) -> bool
    decreases e,
{
    match e {
        Expr::IntLit(_) => true,
        Expr::BoolLit(_) => true,
        Expr::Var(_, t) => t == Ty::Unknown,
        Expr::Fresh(..) => false,
        Expr::Binary(_, l, r) => is_untyped(*l) && is_untyped(*r),
        Expr::Unary(_, a) => is_untyped(*a),
    }
}

pub open spec fn is_arith(op: BinOp) -> bool {
    op == BinOp::Add || op == BinOp::Sub || op == BinOp::Mul || op == BinOp::Div || op
        == BinOp::Mod
}

pub open spec fn is_ordering(op: BinOp) -> bool {
    op == BinOp::Lt || op == BinOp::Le || op == BinOp::Gt || op == BinOp::Ge
}

pub fn mk_binary(op: BinOp, l: Expr, r: Expr) -> (e: Expr)
    ensures
        e == Expr::Binary(op, Box::new(l), Box::new(r)),
{
    Expr::Binary(op, Box::new(l), Box::new(r))
}

pub fn mk_unary(op: UnOp, a: Expr) -> (e: Expr)
    ensures
        e == Expr::Unary(op, Box::new(a)),
{
    Expr::Unary(op, Box::new(a))
}

impl Expr {
    /// A copy of the tree, equal to it.
    pub fn deep_copy(&self) -> (r: Expr)
        ensures
            r == *self,
        decreases self,
    {
        match self {
            Expr::IntLit(n) => Expr::IntLit(*n),
            Expr::BoolLit(b) => Expr::BoolLit(*b),
            Expr::Var(n, t) => Expr::Var(n.clone(), *t),
            Expr::Fresh(b, k, t) => Expr::Fresh(*b, *k, *t),
            Expr::Binary(op, l, r) => mk_binary(*op, l.deep_copy(), r.deep_copy()),
            Expr::Unary(op, a) => mk_unary(*op, a.deep_copy()),
        }
    }
}

} // verus!
