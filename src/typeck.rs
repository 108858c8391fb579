use vstd::prelude::*;
use crate::expr::{BinOp, Expr, Ty, UnOp, is_arith, is_ordering, mk_binary, mk_unary};

verus! {

/// The types of a function's named values: arguments, locals and
/// temporaries in `entries`, and the return type, which the name `ret`
/// always denotes.
pub struct VarTable {
    pub entries: Vec<(String, Ty)>,
    pub ret_ty: Ty,
}

#[derive(Debug)]
pub enum TypeError {
    /// A variable that the table does not hold.
    UnknownVariable(String),
    /// A variable that reached type checking without a type.
    Unresolved(String),
    /// An operand of the wrong type: the operator, the offending
    /// sub-expression (the node that applies it), what it needs, what it got.
    Mismatch(Operator, Box<Expr>, Ty, Ty),
    /// A condition whose root is not boolean.
    NotBoolean(Ty),
}

pub open spec fn ret_name() -> Seq<char> {
    seq!['r', 'e', 't']
}

/// The type that the table binds to `name` among its first `k` entries.
pub open spec fn lookup_upto(entries: Seq<(String, Ty)>, name: Seq<char>, k: int) -> Option<Ty>
    decreases k,
{
    if k <= 0 {
        None
    } else {
        match lookup_upto(entries, name, k - 1) {
            Some(t) => Some(t),
            None => if entries[k - 1].0@ == name {
                Some(entries[k - 1].1)
            } else {
                None
            },
        }
    }
}

/// The type bound to `name`: `ret` names the return type, any other
/// name its first entry in the table.
pub open spec fn lookup_spec(t: VarTable, name: Seq<char>) -> Option<Ty> {
    if name == ret_name() {
        Some(t.ret_ty)
    } else {
        lookup_upto(t.entries@, name, t.entries@.len() as int)
    }
}

/// The first variable of `e`, left to right, that still needs a type
/// and that the table does not know.
pub open spec fn first_unknown(e: Expr, t: VarTable) -> Option<Seq<char>>
    decreases e,
{
    match e {
        Expr::Var(n, ty) => if ty == Ty::Unknown && lookup_spec(t, n@) is None {
            Some(n@)
        } else {
            None
        },
        Expr::Binary(_, l, r) => match first_unknown(*l, t) {
            Some(n) => Some(n),
            None => first_unknown(*r, t),
        },
        Expr::Unary(_, a) => first_unknown(*a, t),
        _ => None,
    }
}

/// `r` is `e` with the type of each untyped variable taken from the table.
pub open spec fn resolved_as(e: Expr, t: VarTable, r: Expr) -> bool
    decreases e,
{
    match e {
        Expr::IntLit(v) => r == Expr::IntLit(v),
        Expr::BoolLit(b) => r == Expr::BoolLit(b),
        Expr::Var(n, ty) => match r {
            Expr::Var(m, rt) => m@ == n@ && rt == (if ty == Ty::Unknown {
                lookup_spec(t, n@).unwrap()
            } else {
                ty
            }),
            _ => false,
        },
        Expr::Fresh(b, k, ty) => r == Expr::Fresh(b, k, ty),
        Expr::Binary(op, l, rr) => match r {
            Expr::Binary(op2, l2, r2) => op2 == op && resolved_as(*l, t, *l2) && resolved_as(
                *rr,
                t,
                *r2,
            ),
            _ => false,
        },
        Expr::Unary(op, a) => match r {
            Expr::Unary(op2, a2) => op2 == op && resolved_as(*a, t, *a2),
            _ => false,
        },
    }
}

/// `a` and `b` are the same tree: same shape, operators, literals and
/// types, and names that read the same.
pub open spec fn same_tree(a: Expr, b: Expr) -> bool
    decreases a,
{
    match a {
        Expr::IntLit(v) => b == Expr::IntLit(v),
        Expr::BoolLit(v) => b == Expr::BoolLit(v),
        Expr::Var(n, t) => match b {
            Expr::Var(m, u) => m@ == n@ && u == t,
            _ => false,
        },
        Expr::Fresh(i, k, t) => b == Expr::Fresh(i, k, t),
        Expr::Binary(op, l, r) => match b {
            Expr::Binary(op2, l2, r2) => op2 == op && same_tree(*l, *l2) && same_tree(*r, *r2),
            _ => false,
        },
        Expr::Unary(op, x) => match b {
            Expr::Unary(op2, x2) => op2 == op && same_tree(*x, *x2),
            _ => false,
        },
    }
}

/// Resolution is deterministic: over one table, any two resolutions of
/// the same expression are the same typed tree.
pub proof fn lemma_resolve_deterministic(e: Expr, t: VarTable, x1: Expr, x2: Expr)
    requires
        resolved_as(e, t, x1),
        resolved_as(e, t, x2),
    ensures
        same_tree(x1, x2),
    decreases e,
{
    match e {
        Expr::Binary(_, l, r) => {
            let (l1, r1) = match x1 {
                Expr::Binary(_, a, b) => (*a, *b),
                _ => (x1, x1),
            };
            let (l2, r2) = match x2 {
                Expr::Binary(_, a, b) => (*a, *b),
                _ => (x2, x2),
            };
            lemma_resolve_deterministic(*l, t, l1, l2);
            lemma_resolve_deterministic(*r, t, r1, r2);
        },
        Expr::Unary(_, a) => {
            let a1 = match x1 {
                Expr::Unary(_, a) => *a,
                _ => x1,
            };
            let a2 = match x2 {
                Expr::Unary(_, a) => *a,
                _ => x2,
            };
            lemma_resolve_deterministic(*a, t, a1, a2);
        },
        _ => {},
    }
}

proof fn lemma_lookup_stable(entries: Seq<(String, Ty)>, name: Seq<char>, i: int, k: int)
    requires
        0 <= i <= k,
        lookup_upto(entries, name, i) is Some,
    ensures
        lookup_upto(entries, name, k) == lookup_upto(entries, name, i),
    decreases k - i,
{
    if i < k {
        lemma_lookup_stable(entries, name, i, k - 1);
    }
}

impl VarTable {
    /// The type that the table binds to `name`.
    pub fn lookup(&self, name: &String) -> (r: Option<Ty>)
        ensures
            r == lookup_spec(*self, name@),
    {
        let ret_s = String::from_str("ret");
        proof {
            reveal_strlit("ret");
            assert(ret_s@ =~= ret_name());
        }
        if *name == ret_s {
            return Some(self.ret_ty);
        }
        let mut i: usize = 0;
        while i < self.entries.len()
            invariant
                0 <= i <= self.entries@.len(),
                name@ != ret_name(),
                lookup_upto(self.entries@, name@, i as int) is None,
            decreases self.entries@.len() - i,
        {
            if self.entries[i].0 == *name {
                proof {
                    lemma_lookup_stable(self.entries@, name@, i as int + 1, self.entries@.len() as int);
                }
                return Some(self.entries[i].1);
            }
            i = i + 1;
        }
        None
    }
}

/// Binds every untyped variable of `e` to its type in the table; fails on
/// the first name (left to right) that the table does not hold.
pub fn resolve(e: &Expr, table: &VarTable) -> (r: Result<Expr, TypeError>)
    ensures
        match r {
            Ok(x) => first_unknown(*e, *table) is None && resolved_as(*e, *table, x),
            Err(TypeError::UnknownVariable(n)) => first_unknown(*e, *table) == Some(n@),
            Err(_) => false,
        },
    decreases e,
{
    match e {
        Expr::IntLit(v) => Ok(Expr::IntLit(*v)),
        Expr::BoolLit(b) => Ok(Expr::BoolLit(*b)),
        Expr::Fresh(b, k, t) => Ok(Expr::Fresh(*b, *k, *t)),
        Expr::Var(n, ty) => {
            if *ty != Ty::Unknown {
                Ok(Expr::Var(n.clone(), *ty))
            } else {
                match table.lookup(n) {
                    Some(t) => Ok(Expr::Var(n.clone(), t)),
                    None => Err(TypeError::UnknownVariable(n.clone())),
                }
            }
        },
        Expr::Binary(op, l, r) => {
            let l2 = resolve(l, table)?;
            let r2 = resolve(r, table)?;
            Ok(mk_binary(*op, l2, r2))
        },
        Expr::Unary(op, a) => {
            let a2 = resolve(a, table)?;
            Ok(mk_unary(*op, a2))
        },
    }
}

/// An operator, in what a type error reports.
#[derive(Clone, Copy, Debug, PartialEq, Eq, Structural)]
pub enum Operator {
    Bin(BinOp),
    Un(UnOp),
}

/// The type needed of both operands of `op`, for the operators whose
/// operands have one fixed type.
pub open spec fn operand_ty(op: BinOp) -> Ty {
    if is_arith(op) || is_ordering(op) {
        Ty::Int
    } else {
        Ty::Bool
    }
}

pub open spec fn result_ty(op: BinOp) -> Ty {
    if is_arith(op) {
        Ty::Int
    } else {
        Ty::Bool
    }
}

/// The type of `e`, or the first ill-typed node in a bottom-up,
/// left-to-right pass.
pub open spec fn type_of(e: Expr) -> Result<Ty, TypeError>
    decreases e,
{
    match e {
        Expr::IntLit(_) => Ok(Ty::Int),
        Expr::BoolLit(_) => Ok(Ty::Bool),
        Expr::Var(n, t) => if t == Ty::Unknown {
            Err(TypeError::Unresolved(n))
        } else {
            Ok(t)
        },
        Expr::Fresh(_, _, t) => Ok(t),
        Expr::Binary(op, l, r) => match type_of(*l) {
            Ok(lt) => match type_of(*r) {
                Ok(rt) => if op == BinOp::Eq || op == BinOp::Ne {
                    if lt == rt {
                        Ok(Ty::Bool)
                    } else {
                        Err(TypeError::Mismatch(Operator::Bin(op), Box::new(e), lt, rt))
                    }
                } else if lt != operand_ty(op) {
                    Err(TypeError::Mismatch(Operator::Bin(op), Box::new(e), operand_ty(op), lt))
                } else if rt != operand_ty(op) {
                    Err(TypeError::Mismatch(Operator::Bin(op), Box::new(e), operand_ty(op), rt))
                } else {
                    Ok(result_ty(op))
                },
                other => other,
            },
            other => other,
        },
        Expr::Unary(op, a) => match type_of(*a) {
            Ok(at) => {
                let need = if op == UnOp::Not {
                    Ty::Bool
                } else {
                    Ty::Int
                };
                if at == need {
                    Ok(need)
                } else {
                    Err(TypeError::Mismatch(Operator::Un(op), Box::new(e), need, at))
                }
            },
            other => other,
        },
    }
}

fn operand_ty_of(op: BinOp) -> (t: Ty)
    ensures
        t == operand_ty(op),
{
    match op {
        BinOp::Add | BinOp::Sub | BinOp::Mul | BinOp::Div | BinOp::Mod => Ty::Int,
        BinOp::Lt | BinOp::Le | BinOp::Gt | BinOp::Ge => Ty::Int,
        _ => Ty::Bool,
    }
}

fn result_ty_of(op: BinOp) -> (t: Ty)
    ensures
        t == result_ty(op),
{
    match op {
        BinOp::Add | BinOp::Sub | BinOp::Mul | BinOp::Div | BinOp::Mod => Ty::Int,
        _ => Ty::Bool,
    }
}

/// The type of a resolved expression: arithmetic takes and gives `Int`,
/// ordering takes `Int` and gives `Bool`, equality takes two operands of
/// one type, the logical operators take and give `Bool`.
pub fn typecheck(e: &Expr) -> (r: Result<Ty, TypeError>)
    ensures
        r == type_of(*e),
    decreases e,
{
    match e {
        Expr::IntLit(_) => Ok(Ty::Int),
        Expr::BoolLit(_) => Ok(Ty::Bool),
        Expr::Var(n, t) => if *t == Ty::Unknown {
            Err(TypeError::Unresolved(n.clone()))
        } else {
            Ok(*t)
        },
        Expr::Fresh(_, _, t) => Ok(*t),
        Expr::Binary(op, l, r) => {
            let lt = typecheck(l)?;
            let rt = typecheck(r)?;
            if *op == BinOp::Eq || *op == BinOp::Ne {
                if lt == rt {
                    Ok(Ty::Bool)
                } else {
                    Err(TypeError::Mismatch(Operator::Bin(*op), Box::new(e.deep_copy()), lt, rt))
                }
            } else {
                let need = operand_ty_of(*op);
                if lt != need {
                    Err(TypeError::Mismatch(Operator::Bin(*op), Box::new(e.deep_copy()), need, lt))
                } else if rt != need {
                    Err(TypeError::Mismatch(Operator::Bin(*op), Box::new(e.deep_copy()), need, rt))
                } else {
                    Ok(result_ty_of(*op))
                }
            }
        },
        Expr::Unary(op, a) => {
            let at = typecheck(a)?;
            let need = if *op == UnOp::Not {
                Ty::Bool
            } else {
                Ty::Int
            };
            if at == need {
                Ok(need)
            } else {
                Err(TypeError::Mismatch(Operator::Un(*op), Box::new(e.deep_copy()), need, at))
            }
        },
    }
}

/// `err` is what binding the condition `e` to the table reports: its first
/// unknown variable; else the first type error of the bound condition, or
/// `NotBoolean` for a root of another type.
pub open spec fn condition_error(e: Expr, t: VarTable, err: TypeError) -> bool {
    match err {
        TypeError::UnknownVariable(n) => first_unknown(e, t) == Some(n@),
        _ => first_unknown(e, t) is None && exists|x: Expr|
            resolved_as(e, t, x) && #[trigger] type_of(x) != Ok::<Ty, TypeError>(Ty::Bool) && (
            type_of(x) == Err::<Ty, TypeError>(err) || (type_of(x) is Ok && err
                == TypeError::NotBoolean(type_of(x)->Ok_0))),
    }
}

/// Binds a condition to the table and checks that it is boolean.
pub fn resolve_condition(e: &Expr, table: &VarTable) -> (r: Result<Expr, TypeError>)
    ensures
        match r {
            Ok(x) => first_unknown(*e, *table) is None && resolved_as(*e, *table, x) && type_of(x)
                == Ok::<Ty, TypeError>(Ty::Bool),
            Err(err) => condition_error(*e, *table, err),
        },
{
    let x = match resolve(e, table) {
        Ok(x) => x,
        Err(err) => {
            return Err(err);
        },
    };
    let t = typecheck(&x);
    match t {
        Ok(ty) => {
            if ty == Ty::Bool {
                Ok(x)
            } else {
                Err(TypeError::NotBoolean(ty))
            }
        },
        Err(err) => {
            proof {
                lemma_type_of_errors(x);
            }
            Err(err)
        },
    }
}

/// Type checking reports no unknown variable: that is resolution's error.
proof fn lemma_type_of_errors(e: Expr)
    ensures
        !(type_of(e) matches Err(TypeError::UnknownVariable(_))),
    decreases e,
{
    match e {
        Expr::Binary(_, l, r) => {
            lemma_type_of_errors(*l);
            lemma_type_of_errors(*r);
        },
        Expr::Unary(_, a) => {
            lemma_type_of_errors(*a);
        },
        _ => {},
    }
}

} // verus!
