use vstd::prelude::*;
use crate::expr::{BinOp, Expr, Ty, UnOp, mk_binary, mk_unary};
use crate::typeck::ret_name;

verus! {

/// A primitive operation inside a basic block.
#[derive(Debug)]
pub enum Stmt {
    /// `name := value`.
    Assign(String, Expr),
    /// A call of another function.
    Call(CallSite),
}

/// The precondition and postcondition of a function, over its parameters
/// and, in the postcondition, `ret`.
#[derive(Debug)]
pub struct Contract {
    pub params: Vec<String>,
    pub pre: Expr,
    pub post: Expr,
}

/// `dest := callee(args)`; a callee without a contract is opaque.
#[derive(Debug)]
pub struct CallSite {
    pub dest: String,
    pub dest_ty: Ty,
    pub callee: String,
    pub args: Vec<Expr>,
    pub contract: Option<Contract>,
}

/// How a basic block ends.
#[derive(Debug)]
pub enum Terminator {
    /// Return of the given value, which the postcondition calls `ret`.
    Return(Expr),
    Goto(usize),
    /// A branch on a boolean guard: to the first block when it holds, else
    /// to the second.
    Branch(Expr, usize, usize),
}

/// A basic block. A block that carries an invariant is a loop header:
/// entering it from anywhere means establishing the invariant.
#[derive(Debug)]
pub struct Block {
    pub stmts: Vec<Stmt>,
    pub term: Terminator,
    pub invariant: Option<Expr>,
}

/// A control-flow graph: an arena of blocks addressed by index.
#[derive(Debug)]
pub struct Cfg {
    pub blocks: Vec<Block>,
    pub entry: usize,
}

/// Why a function cannot be verified.
#[derive(Debug)]
pub enum Unsupported {
    /// A cycle that passes through no block with an invariant.
    UnannotatedLoop,
    /// A call of a function without a contract.
    OpaqueCall(String),
    /// A call whose arguments do not match the callee's parameters.
    ArityMismatch(String),
    /// A reference to a block that the graph does not hold.
    MissingBlock(usize),
}

/// `e` with every occurrence of the variable `x` replaced by `by`.
pub open spec fn subst(e: Expr, x: Seq<char>, by: Expr) -> Expr
    decreases e,
{
    match e {
        Expr::Var(n, _) => if n@ == x {
            by
        } else {
            e
        },
        Expr::Binary(op, l, r) => Expr::Binary(
            op,
            Box::new(subst(*l, x, by)),
            Box::new(subst(*r, x, by)),
        ),
        Expr::Unary(op, a) => Expr::Unary(op, Box::new(subst(*a, x, by))),
        _ => e,
    }
}

/// The index of the first of the first `k` names equal to `n`.
pub open spec fn index_in(xs: Seq<Seq<char>>, n: Seq<char>, k: int) -> Option<int>
    decreases k,
{
    if k <= 0 {
        None
    } else {
        match index_in(xs, n, k - 1) {
            Some(i) => Some(i),
            None => if xs[k - 1] == n {
                Some(k - 1)
            } else {
                None
            },
        }
    }
}

/// `e` with each variable named in `xs` replaced, all at once, by the
/// expression of `vs` at the same index.
pub open spec fn subst_all(e: Expr, xs: Seq<Seq<char>>, vs: Seq<Expr>) -> Expr
    decreases e,
{
    match e {
        Expr::Var(n, _) => match index_in(xs, n@, xs.len() as int) {
            Some(i) => if i < vs.len() {
                vs[i]
            } else {
                e
            },
            None => e,
        },
        Expr::Binary(op, l, r) => Expr::Binary(
            op,
            Box::new(subst_all(*l, xs, vs)),
            Box::new(subst_all(*r, xs, vs)),
        ),
        Expr::Unary(op, a) => Expr::Unary(op, Box::new(subst_all(*a, xs, vs))),
        _ => e,
    }
}

pub open spec fn names(xs: Seq<String>) -> Seq<Seq<char>> {
    xs.map_values(|s: String| s@)
}

/// The weakest precondition, for `q` after it, of the call at statement
/// `k` of block `b`. Its result is the variable `v == Fresh(b, k, _)`,
/// which nothing else names: the callee's precondition on the arguments
/// holds, and its postcondition, on the arguments and with `v` for `ret`,
/// implies `q` with `v` for `dest`.
pub open spec fn call_wp(c: CallSite, q: Expr, b: usize, k: usize) -> Result<Expr, Unsupported> {
    match c.contract {
        None => Err(Unsupported::OpaqueCall(c.callee)),
        Some(ct) => if ct.params@.len() != c.args@.len() {
            Err(Unsupported::ArityMismatch(c.callee))
        } else {
            Ok(
                and(
                    subst_all(ct.pre, names(ct.params@), c.args@),
                    implies(
                        subst_all(
                            ct.post,
                            names(ct.params@).push(ret_name()),
                            c.args@.push(Expr::Fresh(b, k, c.dest_ty)),
                        ),
                        subst(q, c.dest@, Expr::Fresh(b, k, c.dest_ty)),
                    ),
                ),
            )
        },
    }
}

pub open spec fn implies(a: Expr, b: Expr) -> Expr {
    Expr::Binary(BinOp::Implies, Box::new(a), Box::new(b))
}

pub open spec fn and(a: Expr, b: Expr) -> Expr {
    Expr::Binary(BinOp::And, Box::new(a), Box::new(b))
}

pub open spec fn not(a: Expr) -> Expr {
    Expr::Unary(UnOp::Not, Box::new(a))
}

/// The weakest precondition of the first `k` statements of block `b`, for
/// the condition `q` after them: assignments substitute, backward.
pub open spec fn stmts_wp(stmts: Seq<Stmt>, k: int, q: Expr, b: usize) -> Result<Expr, Unsupported>
    decreases k,
{
    if k <= 0 {
        Ok(q)
    } else {
        match stmts[k - 1] {
            Stmt::Assign(v, e) => stmts_wp(stmts, k - 1, subst(q, v@, e), b),
            Stmt::Call(c) => match call_wp(c, q, b, (k - 1) as usize) {
                Ok(w) => stmts_wp(stmts, k - 1, w, b),
                Err(x) => Err(x),
            },
        }
    }
}

/// The weakest precondition, for `post` at every return, of running from
/// block `b`. Reaching a loop header, other than the block where the walk
/// starts (`at_start`), yields its invariant. `fuel` bounds the number of
/// blocks walked through: running out means a cycle without an invariant.
pub open spec fn wp_spec(cfg: Cfg, b: usize, fuel: nat, post: Expr, at_start: bool) -> Result<
    Expr,
    Unsupported,
>
    decreases fuel,
{
    if b >= cfg.blocks@.len() {
        Err(Unsupported::MissingBlock(b))
    } else if !at_start && cfg.blocks@[b as int].invariant is Some {
        Ok(cfg.blocks@[b as int].invariant->Some_0)
    } else if fuel == 0 {
        Err(Unsupported::UnannotatedLoop)
    } else {
        let blk = cfg.blocks@[b as int];
        let after = match blk.term {
            Terminator::Return(e) => Ok(subst(post, ret_name(), e)),
            Terminator::Goto(t) => wp_spec(cfg, t, (fuel - 1) as nat, post, false),
            Terminator::Branch(g, t, f) => match wp_spec(cfg, t, (fuel - 1) as nat, post, false) {
                Ok(wt) => match wp_spec(cfg, f, (fuel - 1) as nat, post, false) {
                    Ok(wf) => Ok(and(implies(g, wt), implies(not(g), wf))),
                    Err(x) => Err(x),
                },
                Err(x) => Err(x),
            },
        };
        match after {
            Ok(q) => stmts_wp(blk.stmts@, blk.stmts@.len() as int, q, b),
            Err(x) => Err(x),
        }
    }
}

/// Replaces every occurrence of the variable `x` in `e` by `by`.
pub fn substitute(e: &Expr, x: &String, by: &Expr) -> (r: Expr)
    ensures
        r == subst(*e, x@, *by),
    decreases e,
{
    match e {
        Expr::Var(n, t) => {
            if *n == *x {
                by.deep_copy()
            } else {
                Expr::Var(n.clone(), *t)
            }
        },
        Expr::Binary(op, l, r) => mk_binary(*op, substitute(l, x, by), substitute(r, x, by)),
        Expr::Unary(op, a) => mk_unary(*op, substitute(a, x, by)),
        Expr::Fresh(b, k, t) => Expr::Fresh(*b, *k, *t),
        Expr::IntLit(v) => Expr::IntLit(*v),
        Expr::BoolLit(v) => Expr::BoolLit(*v),
    }
}

/// Replaces each variable named in `xs`, all at once, by the expression of
/// `vs` at the same index.
pub fn substitute_all(e: &Expr, xs: &Vec<String>, vs: &Vec<Expr>) -> (r: Expr)
    ensures
        r == subst_all(*e, names(xs@), vs@),
    decreases e,
{
    match e {
        Expr::Var(n, t) => {
            let mut i: usize = 0;
            assert(names(xs@).len() == xs@.len());
            while i < xs.len()
                invariant
                    0 <= i <= xs@.len(),
                    *e == Expr::Var(*n, *t),
                    names(xs@).len() == xs@.len(),
                    index_in(names(xs@), n@, i as int) is None,
                decreases xs@.len() - i,
            {
                if xs[i] == *n {
                    proof {
                        assert(names(xs@)[i as int] == xs@[i as int]@);
                        assert(index_in(names(xs@), n@, i as int + 1) == Some(i as int));
                        lemma_index_stable(names(xs@), n@, i as int + 1, xs@.len() as int);
                    }
                    if i < vs.len() {
                        return vs[i].deep_copy();
                    } else {
                        return Expr::Var(n.clone(), *t);
                    }
                }
                i = i + 1;
            }
            Expr::Var(n.clone(), *t)
        },
        Expr::Binary(op, l, r) => mk_binary(*op, substitute_all(l, xs, vs), substitute_all(r, xs, vs)),
        Expr::Unary(op, a) => mk_unary(*op, substitute_all(a, xs, vs)),
        Expr::Fresh(b, k, t) => Expr::Fresh(*b, *k, *t),
        Expr::IntLit(v) => Expr::IntLit(*v),
        Expr::BoolLit(v) => Expr::BoolLit(*v),
    }
}

proof fn lemma_index_stable(xs: Seq<Seq<char>>, n: Seq<char>, i: int, k: int)
    requires
        0 <= i <= k,
        index_in(xs, n, i) is Some,
    ensures
        index_in(xs, n, k) == index_in(xs, n, i),
    decreases k - i,
{
    if i < k {
        lemma_index_stable(xs, n, i, k - 1);
    }
}

fn copy_names(xs: &Vec<String>) -> (r: Vec<String>)
    ensures
        r@ == xs@,
{
    let mut out: Vec<String> = Vec::new();
    let mut i: usize = 0;
    while i < xs.len()
        invariant
            0 <= i <= xs@.len(),
            out@ == xs@.subrange(0, i as int),
        decreases xs@.len() - i,
    {
        out.push(xs[i].clone());
        i = i + 1;
        assert(out@ =~= xs@.subrange(0, i as int));
    }
    assert(out@ =~= xs@);
    out
}

fn copy_exprs(vs: &Vec<Expr>) -> (r: Vec<Expr>)
    ensures
        r@ == vs@,
{
    let mut out: Vec<Expr> = Vec::new();
    let mut i: usize = 0;
    while i < vs.len()
        invariant
            0 <= i <= vs@.len(),
            out@ == vs@.subrange(0, i as int),
        decreases vs@.len() - i,
    {
        out.push(vs[i].deep_copy());
        i = i + 1;
        assert(out@ =~= vs@.subrange(0, i as int));
    }
    assert(out@ =~= vs@);
    out
}

fn call_precondition(c: &CallSite, q: Expr, b: usize, k: usize) -> (r: Result<Expr, Unsupported>)
    ensures
        r == call_wp(*c, q, b, k),
{
    match &c.contract {
        None => Err(Unsupported::OpaqueCall(c.callee.clone())),
        Some(ct) => {
            if ct.params.len() != c.args.len() {
                return Err(Unsupported::ArityMismatch(c.callee.clone()));
            }
            let pre = substitute_all(&ct.pre, &ct.params, &c.args);
            let mut xs = copy_names(&ct.params);
            let mut vs = copy_exprs(&c.args);
            let ret_s = String::from_str("ret");
            proof {
                reveal_strlit("ret");
                assert(ret_s@ =~= ret_name());
            }
            xs.push(ret_s);
            vs.push(Expr::Fresh(b, k, c.dest_ty));
            assert(names(xs@) =~= names(ct.params@).push(ret_name()));
            let post = substitute_all(&ct.post, &xs, &vs);
            let after = substitute(&q, &c.dest, &Expr::Fresh(b, k, c.dest_ty));
            Ok(mk_binary(BinOp::And, pre, mk_binary(BinOp::Implies, post, after)))
        },
    }
}

fn stmts_precondition(stmts: &Vec<Stmt>, q: Expr, b: usize) -> (r: Result<Expr, Unsupported>)
    ensures
        r == stmts_wp(stmts@, stmts@.len() as int, q, b),
{
    let mut k: usize = stmts.len();
    let mut acc = q;
    while k > 0
        invariant
            0 <= k <= stmts@.len(),
            stmts_wp(stmts@, stmts@.len() as int, q, b) == stmts_wp(stmts@, k as int, acc, b),
        decreases k,
    {
        match &stmts[k - 1] {
            Stmt::Assign(v, e) => {
                acc = substitute(&acc, v, e);
            },
            Stmt::Call(c) => {
                acc = match call_precondition(c, acc, b, k - 1) {
                    Ok(w) => w,
                    Err(x) => {
                        return Err(x);
                    },
                };
            },
        }
        k = k - 1;
    }
    Ok(acc)
}

/// A memo of walk results by block: an entry `(x, f)` for block `i` means
/// that the walk from `i` (not at its start) gives `x` with any fuel from
/// `f` on.
pub open spec fn memo_ok(cfg: Cfg, post: Expr, memo: Seq<Option<(Expr, usize)>>) -> bool {
    forall|i: usize, f2: nat|
        i < memo.len() && memo[i as int] is Some && f2 >= memo[i as int]->Some_0.1 ==> #[trigger] wp_spec(
            cfg,
            i,
            f2,
            post,
            false,
        ) == Ok::<Expr, Unsupported>(memo[i as int]->Some_0.0)
}

/// More fuel does not change a walk that succeeded.
proof fn lemma_wp_fuel(cfg: Cfg, b: usize, f: nat, f2: nat, post: Expr, at_start: bool)
    requires
        f <= f2,
        wp_spec(cfg, b, f, post, at_start) is Ok,
    ensures
        wp_spec(cfg, b, f2, post, at_start) == wp_spec(cfg, b, f, post, at_start),
    decreases f,
{
    if b < cfg.blocks@.len() && !(!at_start && cfg.blocks@[b as int].invariant is Some) && f > 0 {
        match cfg.blocks@[b as int].term {
            Terminator::Goto(t) => {
                lemma_wp_fuel(cfg, t, (f - 1) as nat, (f2 - 1) as nat, post, false);
            },
            Terminator::Branch(_, t, e) => {
                lemma_wp_fuel(cfg, t, (f - 1) as nat, (f2 - 1) as nat, post, false);
                lemma_wp_fuel(cfg, e, (f - 1) as nat, (f2 - 1) as nat, post, false);
            },
            _ => {},
        }
    }
}

/// A memo with no entries, one slot per block.
fn empty_memo(n: usize) -> (memo: Vec<Option<(Expr, usize)>>)
    ensures
        memo@.len() == n,
        forall|i: int| 0 <= i < n ==> #[trigger] memo@[i] is None,
{
    let mut memo: Vec<Option<(Expr, usize)>> = Vec::new();
    let mut i: usize = 0;
    while i < n
        invariant
            0 <= i <= n,
            memo@.len() == i,
            forall|k: int| 0 <= k < i ==> #[trigger] memo@[k] is None,
        decreases n - i,
    {
        memo.push(None);
        i = i + 1;
    }
    memo
}

/// The walk of `wp`, reusing and filling a memo of results by block.
fn wp_memo(
    cfg: &Cfg,
    b: usize,
    fuel: usize,
    post: &Expr,
    at_start: bool,
    memo: &mut Vec<Option<(Expr, usize)>>,
) -> (r: Result<Expr, Unsupported>)
    requires
        old(memo)@.len() == cfg.blocks@.len(),
        memo_ok(*cfg, *post, old(memo)@),
    ensures
        r == wp_spec(*cfg, b, fuel as nat, *post, at_start),
        final(memo)@.len() == cfg.blocks@.len(),
        memo_ok(*cfg, *post, final(memo)@),
    decreases fuel,
{
    if b >= cfg.blocks.len() {
        return Err(Unsupported::MissingBlock(b));
    }
    let blk = &cfg.blocks[b];
    if !at_start {
        if let Some(inv) = &blk.invariant {
            return Ok(inv.deep_copy());
        }
        if let Some((x, f)) = &memo[b] {
            if *f <= fuel {
                assert(memo@[b as int] is Some);
                assert(memo@[b as int]->Some_0.0 == *x && memo@[b as int]->Some_0.1 == *f);
                assert(wp_spec(*cfg, b, fuel as nat, *post, false) == Ok::<Expr, Unsupported>(
                    memo@[b as int]->Some_0.0,
                ));
                return Ok(x.deep_copy());
            }
        }
    }
    if fuel == 0 {
        return Err(Unsupported::UnannotatedLoop);
    }
    let ret_s = String::from_str("ret");
    proof {
        reveal_strlit("ret");
        assert(ret_s@ =~= ret_name());
    }
    let after = match &blk.term {
        Terminator::Return(e) => substitute(post, &ret_s, e),
        Terminator::Goto(t) => match wp_memo(cfg, *t, fuel - 1, post, false, memo) {
            Ok(x) => x,
            Err(x) => {
                return Err(x);
            },
        },
        Terminator::Branch(g, t, f) => {
            let wt = match wp_memo(cfg, *t, fuel - 1, post, false, memo) {
                Ok(x) => x,
                Err(x) => {
                    return Err(x);
                },
            };
            let wf = match wp_memo(cfg, *f, fuel - 1, post, false, memo) {
                Ok(x) => x,
                Err(x) => {
                    return Err(x);
                },
            };
            mk_binary(
                BinOp::And,
                mk_binary(BinOp::Implies, g.deep_copy(), wt),
                mk_binary(BinOp::Implies, mk_unary(UnOp::Not, g.deep_copy()), wf),
            )
        },
    };
    let r = stmts_precondition(&blk.stmts, after, b);
    if !at_start {
        if let Ok(x) = &r {
            let ghost m0 = memo@;
            memo.set(b, Some((x.deep_copy(), fuel)));
            proof {
                assert forall|i: usize, f2: nat|
                    i < memo@.len() && memo@[i as int] is Some && f2 >= memo@[i as int]->Some_0.1 implies #[trigger] wp_spec(
                    *cfg,
                    i,
                    f2,
                    *post,
                    false,
                ) == Ok::<Expr, Unsupported>(memo@[i as int]->Some_0.0) by {
                    if i == b {
                        lemma_wp_fuel(*cfg, b, fuel as nat, f2, *post, false);
                    } else {
                        assert(memo@[i as int] == m0[i as int]);
                    }
                }
            }
        }
    }
    r
}

/// The weakest precondition of running from block `b`, as `wp_spec` states.
pub fn wp(cfg: &Cfg, b: usize, fuel: usize, post: &Expr, at_start: bool) -> (r: Result<
    Expr,
    Unsupported,
>)
    ensures
        r == wp_spec(*cfg, b, fuel as nat, *post, at_start),
{
    let mut memo = empty_memo(cfg.blocks.len());
    wp_memo(cfg, b, fuel, post, at_start, &mut memo)
}

/// The fuel that a walk starts with: one block for each block of the
/// graph, so that running out means some block was reached twice.
pub open spec fn fuel_of(cfg: Cfg) -> nat {
    cfg.blocks@.len()
}

/// `acc` conjoined, in block order, with the obligation of each loop
/// header among the first `k` blocks: its invariant implies the weakest
/// precondition of its own body.
pub open spec fn obligations(cfg: Cfg, post: Expr, acc: Expr, k: int) -> Result<Expr, Unsupported>
    decreases k,
{
    if k <= 0 {
        Ok(acc)
    } else {
        match obligations(cfg, post, acc, k - 1) {
            Ok(c) => match cfg.blocks@[k - 1].invariant {
                Some(i) => match wp_spec(cfg, (k - 1) as usize, fuel_of(cfg), post, true) {
                    Ok(w) => Ok(and(c, implies(i, w))),
                    Err(x) => Err(x),
                },
                None => Ok(c),
            },
            Err(x) => Err(x),
        }
    }
}

/// Following jumps and branches from block `b`, some walk meets `fuel + 1`
/// blocks without passing a block with an invariant (other than `b`
/// itself, where the walk starts when `at_start`).
pub open spec fn stuck(cfg: Cfg, b: usize, fuel: nat, at_start: bool) -> bool
    decreases fuel,
{
    if b >= cfg.blocks@.len() {
        false
    } else if !at_start && cfg.blocks@[b as int].invariant is Some {
        false
    } else if fuel == 0 {
        true
    } else {
        match cfg.blocks@[b as int].term {
            Terminator::Return(_) => false,
            Terminator::Goto(t) => stuck(cfg, t, (fuel - 1) as nat, false),
            Terminator::Branch(_, t, f) => stuck(cfg, t, (fuel - 1) as nat, false) || stuck(
                cfg,
                f,
                (fuel - 1) as nat,
                false,
            ),
        }
    }
}

/// One of the first `k` blocks starts a walk that gets stuck: the graph
/// has a cycle through no block with an invariant.
pub open spec fn bare_loop(cfg: Cfg, k: int) -> bool
    decreases k,
{
    k > 0 && (bare_loop(cfg, k - 1) || stuck(cfg, (k - 1) as usize, fuel_of(cfg), true))
}

/// Block `b` follows block `a` by a jump or a branch.
pub open spec fn succ(cfg: Cfg, a: usize, b: usize) -> bool {
    a < cfg.blocks@.len() && match cfg.blocks@[a as int].term {
        Terminator::Goto(t) => t == b,
        Terminator::Branch(_, t, f) => t == b || f == b,
        _ => false,
    }
}

/// The verification condition: `pre` implies the weakest precondition at
/// the entry block together with every loop header's obligation. A graph
/// with a loop that no invariant annotates, reachable or not, is refused.
pub open spec fn vc_spec(pre: Expr, post: Expr, cfg: Cfg) -> Result<Expr, Unsupported> {
    if bare_loop(cfg, cfg.blocks@.len() as int) {
        Err(Unsupported::UnannotatedLoop)
    } else {
        vc_walk(pre, post, cfg)
    }
}

pub open spec fn vc_walk(pre: Expr, post: Expr, cfg: Cfg) -> Result<Expr, Unsupported> {
    match wp_spec(cfg, cfg.entry, fuel_of(cfg), post, false) {
        Ok(w) => match obligations(cfg, post, w, cfg.blocks@.len() as int) {
            Ok(c) => Ok(implies(pre, c)),
            Err(x) => Err(x),
        },
        Err(x) => Err(x),
    }
}

/// Building the verification condition twice from the same inputs gives
/// the same formula, or the same reason why it cannot be built.
pub proof fn lemma_vc_deterministic(
    pre: Expr,
    post: Expr,
    cfg: Cfg,
    r1: Result<Expr, Unsupported>,
    r2: Result<Expr, Unsupported>,
)
    requires
        r1 == vc_spec(pre, post, cfg),
        r2 == vc_spec(pre, post, cfg),
    ensures
        r1 == r2,
{
}

proof fn lemma_stuck_on_cycle(cfg: Cfg, c: Seq<usize>, i: int, fuel: nat, at_start: bool)
    requires
        c.len() >= 1,
        0 <= i < c.len(),
        forall|q: int|
            0 <= q < c.len() ==> #[trigger] c[q] < cfg.blocks@.len() && cfg.blocks@[c[q] as int].invariant is None
                && succ(cfg, c[q], if q + 1 < c.len() { c[q + 1] } else { c[0] }),
    ensures
        stuck(cfg, c[i], fuel, at_start),
    decreases fuel,
{
    assert(c[i] < cfg.blocks@.len());
    if fuel > 0 {
        let n = if i + 1 < c.len() { i + 1 } else { 0 };
        assert(succ(cfg, c[i], c[n]));
        lemma_stuck_on_cycle(cfg, c, n, (fuel - 1) as nat, false);
    }
}

proof fn lemma_bare_loop_found(cfg: Cfg, b: usize, k: int)
    requires
        0 <= b < k,
        stuck(cfg, b, fuel_of(cfg), true),
    ensures
        bare_loop(cfg, k),
    decreases k,
{
    if b < k - 1 {
        lemma_bare_loop_found(cfg, b, k - 1);
    }
}

/// A loop without an invariant is never verified: when the blocks of `c`
/// form a cycle of jumps and branches and none carries an invariant,
/// building the verification condition reports an unannotated loop.
pub proof fn lemma_unannotated_loop(pre: Expr, post: Expr, cfg: Cfg, c: Seq<usize>)
    requires
        c.len() >= 1,
        forall|q: int|
            0 <= q < c.len() ==> #[trigger] c[q] < cfg.blocks@.len() && cfg.blocks@[c[q] as int].invariant is None
                && succ(cfg, c[q], if q + 1 < c.len() { c[q + 1] } else { c[0] }),
    ensures
        vc_spec(pre, post, cfg) == Err::<Expr, Unsupported>(Unsupported::UnannotatedLoop),
{
    lemma_stuck_on_cycle(cfg, c, 0, fuel_of(cfg), true);
    assert(c[0] < cfg.blocks@.len());
    lemma_bare_loop_found(cfg, c[0], cfg.blocks@.len() as int);
}

fn is_stuck(cfg: &Cfg, b: usize, fuel: usize, at_start: bool) -> (r: bool)
    ensures
        r == stuck(*cfg, b, fuel as nat, at_start),
    decreases fuel,
{
    if b >= cfg.blocks.len() {
        return false;
    }
    if !at_start && cfg.blocks[b].invariant.is_some() {
        return false;
    }
    if fuel == 0 {
        return true;
    }
    match &cfg.blocks[b].term {
        Terminator::Return(_) => false,
        Terminator::Goto(t) => is_stuck(cfg, *t, fuel - 1, false),
        Terminator::Branch(_, t, f) => is_stuck(cfg, *t, fuel - 1, false) || is_stuck(
            cfg,
            *f,
            fuel - 1,
            false,
        ),
    }
}

fn has_bare_loop(cfg: &Cfg) -> (r: bool)
    ensures
        r == bare_loop(*cfg, cfg.blocks@.len() as int),
{
    let n = cfg.blocks.len();
    let mut k: usize = 0;
    while k < n
        invariant
            n == cfg.blocks@.len(),
            0 <= k <= n,
            !bare_loop(*cfg, k as int),
        decreases n - k,
    {
        if is_stuck(cfg, k, n, true) {
            proof {
                lemma_bare_loop_found(*cfg, k, n as int);
            }
            return true;
        }
        k = k + 1;
    }
    false
}

proof fn lemma_obligations_err(cfg: Cfg, post: Expr, acc: Expr, i: int, k: int)
    requires
        0 <= i <= k,
        obligations(cfg, post, acc, i) is Err,
    ensures
        obligations(cfg, post, acc, k) == obligations(cfg, post, acc, i),
    decreases k - i,
{
    if i < k {
        lemma_obligations_err(cfg, post, acc, i, k - 1);
    }
}

/// Builds `pre ==> (wp(entry, post) && obligations)`.
pub fn build_vc(pre: &Expr, post: &Expr, cfg: &Cfg) -> (r: Result<Expr, Unsupported>)
    ensures
        r == vc_spec(*pre, *post, *cfg),
{
    if has_bare_loop(cfg) {
        return Err(Unsupported::UnannotatedLoop);
    }
    let n: usize = cfg.blocks.len();
    let fuel: usize = n;
    let mut memo = empty_memo(n);
    let w = match wp_memo(cfg, cfg.entry, fuel, post, false, &mut memo) {
        Ok(w) => w,
        Err(x) => {
            return Err(x);
        },
    };
    let ghost w0 = w;
    let mut acc = w;
    let mut i: usize = 0;
    while i < n
        invariant
            n == cfg.blocks@.len(),
            fuel == fuel_of(*cfg),
            0 <= i <= n,
            wp_spec(*cfg, cfg.entry, fuel_of(*cfg), *post, false) == Ok::<Expr, Unsupported>(w0),
            !bare_loop(*cfg, cfg.blocks@.len() as int),
            memo@.len() == cfg.blocks@.len(),
            memo_ok(*cfg, *post, memo@),
            obligations(*cfg, *post, w0, i as int) == Ok::<Expr, Unsupported>(acc),
        decreases n - i,
    {
        if let Some(inv) = &cfg.blocks[i].invariant {
            match wp_memo(cfg, i, fuel, post, true, &mut memo) {
                Ok(body) => {
                    acc = mk_binary(BinOp::And, acc, mk_binary(BinOp::Implies, inv.deep_copy(), body));
                },
                Err(x) => {
                    proof {
                        assert(((i as int + 1) - 1) as usize == i);
                        assert(obligations(*cfg, *post, w0, i as int + 1) == Err::<Expr, Unsupported>(x));
                        lemma_obligations_err(*cfg, *post, w0, i as int + 1, n as int);
                    }
                    return Err(x);
                },
            }
        }
        i = i + 1;
    }
    Ok(mk_binary(BinOp::Implies, pre.deep_copy(), acc))
}

} // verus!
