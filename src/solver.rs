use vstd::prelude::*;
use crate::expr::{Expr, Ty};
use crate::typeck::{TypeError, type_of, typecheck};
use crate::smt::{declares, encodable, declared_vars, lemma_script_no_nul, no_nul, write_script};

verus! {

#[verifier::external_type_specification]
#[verifier::external_body]
pub struct ExSolver(z3::Solver);

#[verifier::external_type_specification]
#[verifier::external_body]
pub struct ExModel(z3::Model);

#[verifier::external_type_specification]
#[verifier::external_body]
pub struct ExParams(z3::Params);

#[verifier::external_type_specification]
#[verifier::external_body]
pub struct ExInt(z3::ast::Int);

#[verifier::external_type_specification]
#[verifier::external_body]
pub struct ExBool(z3::ast::Bool);

/// What a satisfiability check answered.
#[derive(Clone, Copy, Debug, PartialEq, Eq, Structural)]
pub enum SatOutcome {
    Sat,
    Unsat,
    Unknown,
}

/// The value of a variable in a counterexample.
#[derive(Clone, Copy, Debug, PartialEq, Eq, Structural)]
pub enum Value {
    Int(i64),
    Bool(bool),
    /// The solver gave no value that fits.
    Unavailable,
}

/// The result of checking a verification condition.
#[derive(Debug)]
pub enum Verdict {
    /// The condition holds for every input.
    Valid,
    /// The condition fails on this assignment of the variables.
    Invalid(Vec<(String, Value)>),
    /// The check was inconclusive, for the given reason.
    Unknown(Reason),
}

/// Why a check was inconclusive.
#[derive(Debug)]
pub enum Reason {
    /// The condition is not boolean, or cannot be written for the solver;
    /// it was not handed to the solver.
    Encoding,
    /// The solver gave no answer, or no model, for the stated reason.
    Solver(String),
}

/// A condition that can be handed to the solver: boolean, with typed,
/// plain names of one type each.
pub open spec fn solvable(vc: Expr) -> bool {
    type_of(vc) == Ok::<Ty, TypeError>(Ty::Bool) && encodable(vc)
}

/// Relies on z3::Solver::new: a fresh solver in the thread's context.
#[verifier::external_body]
fn z3_solver_new() -> z3::Solver {
    z3::Solver::new()
}

/// Relies on z3::Params::new: an empty parameter set.
#[verifier::external_body]
fn z3_params_new() -> z3::Params {
    z3::Params::new()
}

/// Relies on z3::Params::set_u32, which panics on a key holding a NUL.
#[verifier::external_body]
fn z3_params_set_u32(p: &mut z3::Params, key: &str, v: u32)
    requires
        !key@.contains('\0'),
{
    p.set_u32(key, v)
}

/// Relies on z3::Solver::set_params.
#[verifier::external_body]
fn z3_solver_set_params(s: &z3::Solver, p: &z3::Params) {
    s.set_params(p)
}

/// Relies on z3::Solver::from_string, which parses SMT-LIB text into the
/// solver and panics on text holding a NUL.
#[verifier::external_body]
fn z3_solver_from_string(s: &z3::Solver, text: &String)
    requires
        !text@.contains('\0'),
{
    s.from_string(text.as_str())
}

/// Relies on z3::Solver::check, whose three answers map one to one.
#[verifier::external_body]
fn z3_solver_check(s: &z3::Solver) -> SatOutcome {
    match s.check() {
        z3::SatResult::Sat => SatOutcome::Sat,
        z3::SatResult::Unsat => SatOutcome::Unsat,
        z3::SatResult::Unknown => SatOutcome::Unknown,
    }
}

/// Relies on z3::Solver::get_model: the model of the last check, if any.
#[verifier::external_body]
fn z3_solver_get_model(s: &z3::Solver) -> Option<z3::Model> {
    s.get_model()
}

/// Relies on z3::Solver::get_reason_unknown.
#[verifier::external_body]
fn z3_solver_reason_unknown(s: &z3::Solver) -> Option<String> {
    s.get_reason_unknown()
}

/// Relies on z3::ast::Int::new_const, which panics on a name holding a NUL.
#[verifier::external_body]
fn z3_int_const(name: &String) -> z3::ast::Int
    requires
        !name@.contains('\0'),
{
    z3::ast::Int::new_const(name.as_str())
}

/// Relies on z3::ast::Bool::new_const, which panics on a name holding a NUL.
#[verifier::external_body]
fn z3_bool_const(name: &String) -> z3::ast::Bool
    requires
        !name@.contains('\0'),
{
    z3::ast::Bool::new_const(name.as_str())
}

/// Relies on z3::Model::eval, with model completion, on an integer.
#[verifier::external_body]
fn z3_model_eval_int(m: &z3::Model, c: &z3::ast::Int) -> Option<z3::ast::Int> {
    m.eval(c, true)
}

/// Relies on z3::Model::eval, with model completion, on a boolean.
#[verifier::external_body]
fn z3_model_eval_bool(m: &z3::Model, c: &z3::ast::Bool) -> Option<z3::ast::Bool> {
    m.eval(c, true)
}

/// Relies on z3::ast::Int::as_i64: the numeral, where it fits.
#[verifier::external_body]
fn z3_int_as_i64(c: &z3::ast::Int) -> Option<i64> {
    c.as_i64()
}

/// Relies on z3::ast::Bool::as_bool: the truth value, where it is one.
#[verifier::external_body]
fn z3_bool_as_bool(c: &z3::ast::Bool) -> Option<bool> {
    c.as_bool()
}

/// What a check yields for the solver's answer on the negated condition:
/// no counterexample means valid; a counterexample means invalid; a model
/// that cannot be had, or no answer, means inconclusive.
pub fn interpret(outcome: SatOutcome, model: Option<Vec<(String, Value)>>, reason: String) -> (r:
    Verdict)
    ensures
        outcome == SatOutcome::Unsat ==> r is Valid,
        outcome == SatOutcome::Sat && model is Some ==> r == Verdict::Invalid(model->Some_0),
        outcome == SatOutcome::Sat && model is None ==> r is Unknown,
        outcome == SatOutcome::Unknown ==> r == Verdict::Unknown(Reason::Solver(reason)),
        !(r matches Verdict::Unknown(Reason::Encoding)),
{
    match outcome {
        SatOutcome::Unsat => Verdict::Valid,
        SatOutcome::Sat => match model {
            Some(m) => Verdict::Invalid(m),
            None => Verdict::Unknown(
                Reason::Solver(String::from_str("no model for the counterexample")),
            ),
        },
        SatOutcome::Unknown => Verdict::Unknown(Reason::Solver(reason)),
    }
}

/// A value of the kind that a variable of type `t` takes, or none.
pub open spec fn fits(v: Value, t: Ty) -> bool {
    match v {
        Value::Int(_) => t == Ty::Int,
        Value::Bool(_) => t == Ty::Bool,
        Value::Unavailable => true,
    }
}

/// `m` gives each variable of `vs`, in order, a value of its type.
pub open spec fn assigns(m: Seq<(String, Value)>, vs: Seq<(String, Ty)>) -> bool {
    &&& m.len() == vs.len()
    &&& forall|j: int| 0 <= j < m.len() ==> #[trigger] m[j].0@ == vs[j].0@ && fits(m[j].1, vs[j].1)
}

/// The value of each variable of `vs` in the model.
fn read_model(m: &z3::Model, vs: &Vec<(String, Ty)>) -> (r: Vec<(String, Value)>)
    requires
        forall|j: int| 0 <= j < vs@.len() ==> no_nul(#[trigger] vs@[j].0@),
    ensures
        assigns(r@, vs@),
{
    let mut out: Vec<(String, Value)> = Vec::new();
    let mut i: usize = 0;
    while i < vs.len()
        invariant
            0 <= i <= vs@.len(),
            out@.len() == i,
            forall|j: int| 0 <= j < vs@.len() ==> no_nul(#[trigger] vs@[j].0@),
            forall|j: int|
                0 <= j < i ==> #[trigger] out@[j].0@ == vs@[j].0@ && fits(out@[j].1, vs@[j].1),
        decreases vs@.len() - i,
    {
        let name = &vs[i].0;
        assert(no_nul(vs@[i as int].0@));
        assert(!name@.contains('\0'));
        let v = if vs[i].1 == Ty::Bool {
            match z3_model_eval_bool(m, &z3_bool_const(name)) {
                Some(c) => match z3_bool_as_bool(&c) {
                    Some(b) => Value::Bool(b),
                    None => Value::Unavailable,
                },
                None => Value::Unavailable,
            }
        } else if vs[i].1 == Ty::Int {
            match z3_model_eval_int(m, &z3_int_const(name)) {
                Some(c) => match z3_int_as_i64(&c) {
                    Some(n) => Value::Int(n),
                    None => Value::Unavailable,
                },
                None => Value::Unavailable,
            }
        } else {
            Value::Unavailable
        };
        out.push((name.clone(), v));
        i = i + 1;
    }
    out
}

/// Checks the verification condition `vc` by asking the solver, which
/// gives up after `timeout_ms` milliseconds, for an assignment that makes
/// it false. A condition that is not boolean or cannot be encoded is
/// inconclusive for that reason, and for no other: it never reaches the
/// solver. A counterexample gives a value to each variable of `vc`. A timeout of 0
/// or `u32::MAX` would set no limit at all, so it is ruled out.
pub fn check(vc: &Expr, timeout_ms: u32) -> (r: Verdict)
    requires
        0 < timeout_ms < u32::MAX,
    ensures
        (r matches Verdict::Unknown(Reason::Encoding)) <==> !solvable(*vc),
        r matches Verdict::Invalid(m) ==> exists|vs: Seq<(String, Ty)>|
            declares(vs, *vc) && #[trigger] assigns(m@, vs),
{
    match typecheck(vc) {
        Ok(t) => {
            if t != Ty::Bool {
                return Verdict::Unknown(Reason::Encoding);
            }
        },
        Err(_) => {
            return Verdict::Unknown(Reason::Encoding);
        },
    }
    let vs = match declared_vars(vc) {
        Some(vs) => vs,
        None => {
            return Verdict::Unknown(Reason::Encoding);
        },
    };
    let text = write_script(&vs, vc);
    proof {
        lemma_script_no_nul(vs@, *vc);
        assert forall|j: int| 0 <= j < vs@.len() implies no_nul(#[trigger] vs@[j].0@) by {
            crate::smt::lemma_declared_no_nul(vs@, *vc, j);
        }
    }
    let solver = z3_solver_new();
    let mut params = z3_params_new();
    let key = "timeout";
    proof {
        reveal_strlit("timeout");
    }
    z3_params_set_u32(&mut params, key, timeout_ms);
    z3_solver_set_params(&solver, &params);
    z3_solver_from_string(&solver, &text);
    let outcome = z3_solver_check(&solver);
    let model = if outcome == SatOutcome::Sat {
        match z3_solver_get_model(&solver) {
            Some(m) => Some(read_model(&m, &vs)),
            None => None,
        }
    } else {
        None
    };
    let reason = match z3_solver_reason_unknown(&solver) {
        Some(s) => s,
        None => String::from_str("unknown"),
    };
    let ghost vsg = vs@;
    assert(model matches Some(m) ==> assigns(m@, vsg));
    let r = interpret(outcome, model, reason);
    assert(r matches Verdict::Invalid(m) ==> declares(vsg, *vc) && assigns(m@, vsg));
    r
}

} // verus!
