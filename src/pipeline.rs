use vstd::prelude::*;
use crate::expr::{Expr, Ty};
use crate::parser::{ParseError, parse, reads_as};
use crate::smt::declares;
use crate::solver::{Reason, Verdict, assigns, check, solvable};
use crate::typeck::{TypeError, VarTable, condition_error, first_unknown, resolve_condition, resolved_as, type_of};
use crate::wp::{Cfg, Unsupported, build_vc, vc_spec};

verus! {

/// What verifying one function reports.
#[derive(Debug)]
pub enum Report {
    /// The verification condition was checked.
    Checked(Verdict),
    /// A condition's text is malformed.
    Parse(ParseError),
    /// A condition does not type as boolean over the table.
    Type(TypeError),
    /// The function's body holds what the generator cannot handle.
    Unsupported(Unsupported),
}

/// `x` is the condition `e` bound to the table and typed as boolean.
pub open spec fn typed_condition(e: Expr, t: VarTable, x: Expr) -> bool {
    first_unknown(e, t) is None && resolved_as(e, t, x) && type_of(x) == Ok::<Ty, TypeError>(
        Ty::Bool,
    )
}

/// What holds of the verdict on the verification condition `vc`.
pub open spec fn checked(vc: Expr, v: Verdict) -> bool {
    &&& (v matches Verdict::Unknown(Reason::Encoding)) <==> !solvable(vc)
    &&& v matches Verdict::Invalid(m) ==> exists|vs: Seq<(String, Ty)>|
        declares(vs, vc) && #[trigger] assigns(m@, vs)
}

/// What holds of a report on the conditions `pre` and `post` over the
/// table and the graph.
pub open spec fn reports(pre: Expr, post: Expr, t: VarTable, cfg: Cfg, r: Report) -> bool {
    match r {
        Report::Type(err) => condition_error(pre, t, err) || (exists|p: Expr|
            #[trigger] typed_condition(pre, t, p)) && condition_error(post, t, err),
        Report::Unsupported(u) => exists|p: Expr, q: Expr|
            typed_condition(pre, t, p) && typed_condition(post, t, q) && #[trigger] vc_spec(
                p,
                q,
                cfg,
            ) == Err::<Expr, Unsupported>(u),
        Report::Checked(v) => exists|p: Expr, q: Expr|
            typed_condition(pre, t, p) && typed_condition(post, t, q) && #[trigger] vc_spec(
                p,
                q,
                cfg,
            ) is Ok && checked(vc_spec(p, q, cfg)->Ok_0, v),
        Report::Parse(_) => false,
    }
}

/// Verifies a function with precondition `pre` and postcondition `post`
/// over its variable table and control-flow graph: binds and types both
/// conditions, builds `pre ==> wp`, and has the solver check it.
pub fn verify_conditions(pre: &Expr, post: &Expr, table: &VarTable, cfg: &Cfg, timeout_ms: u32) -> (r:
    Report)
    requires
        0 < timeout_ms < u32::MAX,
    ensures
        reports(*pre, *post, *table, *cfg, r),
{
    let p = match resolve_condition(pre, table) {
        Ok(p) => p,
        Err(err) => {
            return Report::Type(err);
        },
    };
    let q = match resolve_condition(post, table) {
        Ok(q) => q,
        Err(err) => {
            assert(typed_condition(*pre, *table, p));
            return Report::Type(err);
        },
    };
    match build_vc(&p, &q, cfg) {
        Ok(vc) => {
            let v = check(&vc, timeout_ms);
            assert(vc_spec(p, q, *cfg) == Ok::<Expr, Unsupported>(vc));
            Report::Checked(v)
        },
        Err(u) => {
            assert(vc_spec(p, q, *cfg) == Err::<Expr, Unsupported>(u));
            Report::Unsupported(u)
        },
    }
}

/// Verifies a function whose conditions are given as text; malformed text
/// is reported as such.
pub fn verify_function(pre: &str, post: &str, table: &VarTable, cfg: &Cfg, timeout_ms: u32) -> (r:
    Report)
    requires
        0 < timeout_ms < u32::MAX,
    ensures
        match r {
            Report::Parse(_) => (forall|e: Expr| !#[trigger] reads_as(pre@, e)) || (forall|e: Expr|
                !#[trigger] reads_as(post@, e)),
            _ => exists|p: Expr, q: Expr|
                reads_as(pre@, p) && reads_as(post@, q) && #[trigger] reports(
                    p,
                    q,
                    *table,
                    *cfg,
                    r,
                ),
        },
{
    let p = match parse(pre) {
        Ok(p) => p,
        Err(err) => {
            return Report::Parse(err);
        },
    };
    let q = match parse(post) {
        Ok(q) => q,
        Err(err) => {
            return Report::Parse(err);
        },
    };
    verify_conditions(&p, &q, table, cfg, timeout_ms)
}

} // verus!
