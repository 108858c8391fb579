use vstd::prelude::*;
use crate::expr::{BinOp, Expr, Ty, UnOp};

verus! {

/// The SMT-LIB symbol of a binary operator.
pub open spec fn op_sym(op: BinOp) -> Seq<char> {
    match op {
        BinOp::Add => "+"@,
        BinOp::Sub => "-"@,
        BinOp::Mul => "*"@,
        BinOp::Div => "div"@,
        BinOp::Mod => "mod"@,
        BinOp::Eq => "="@,
        BinOp::Ne => "distinct"@,
        BinOp::Lt => "<"@,
        BinOp::Le => "<="@,
        BinOp::Gt => ">"@,
        BinOp::Ge => ">="@,
        BinOp::And => "and"@,
        BinOp::Or => "or"@,
        BinOp::Implies => "=>"@,
    }
}

pub open spec fn digit_seq(d: nat) -> Seq<char> {
    if d == 0 { "0"@ } else if d == 1 { "1"@ } else if d == 2 { "2"@ } else if d == 3 { "3"@ }
    else if d == 4 { "4"@ } else if d == 5 { "5"@ } else if d == 6 { "6"@ } else if d == 7 {
        "7"@
    } else if d == 8 { "8"@ } else { "9"@ }
}

/// The base-10 numeral of `n`.
pub open spec fn numeral(n: nat) -> Seq<char>
    decreases n,
{
    if n < 10 {
        digit_seq(n)
    } else {
        numeral(n / 10) + digit_seq(n % 10)
    }
}

/// The solver's name for the result of the call at statement `k` of
/// block `b`; no plain name holds `#`.
pub open spec fn fresh_name(b: usize, k: usize) -> Seq<char> {
    "#"@ + numeral((b as u64) as nat) + "."@ + numeral((k as u64) as nat)
}

pub(crate) fn write_fresh_name(out: &mut String, b: usize, k: usize)
    ensures
        final(out)@ == old(out)@ + fresh_name(b, k),
{
    out.append("#");
    write_numeral(out, b as u64);
    out.append(".");
    write_numeral(out, k as u64);
    assert(final(out)@ =~= old(out)@ + fresh_name(b, k));
}

/// The SMT-LIB term of an expression; a variable is written as a quoted
/// symbol.
pub open spec fn smt_term(e: Expr) -> Seq<char>
    decreases e,
{
    match e {
        Expr::IntLit(n) => numeral(n as nat),
        Expr::BoolLit(b) => if b {
            "true"@
        } else {
            "false"@
        },
        Expr::Var(n, _) => "|"@ + n@ + "|"@,
        Expr::Fresh(b, k, _) => "|"@ + fresh_name(b, k) + "|"@,
        Expr::Binary(op, l, r) => "("@ + op_sym(op) + " "@ + smt_term(*l) + " "@ + smt_term(*r)
            + ")"@,
        Expr::Unary(op, a) => match op {
            UnOp::Not => "(not "@ + smt_term(*a) + ")"@,
            UnOp::Neg => "(- "@ + smt_term(*a) + ")"@,
        },
    }
}

fn op_text(op: BinOp) -> (r: &'static str)
    ensures
        r@ == op_sym(op),
{
    match op {
        BinOp::Add => "+",
        BinOp::Sub => "-",
        BinOp::Mul => "*",
        BinOp::Div => "div",
        BinOp::Mod => "mod",
        BinOp::Eq => "=",
        BinOp::Ne => "distinct",
        BinOp::Lt => "<",
        BinOp::Le => "<=",
        BinOp::Gt => ">",
        BinOp::Ge => ">=",
        BinOp::And => "and",
        BinOp::Or => "or",
        BinOp::Implies => "=>",
    }
}

fn digit_text(d: u64) -> (r: &'static str)
    requires
        d < 10,
    ensures
        r@ == digit_seq(d as nat),
{
    if d == 0 { "0" } else if d == 1 { "1" } else if d == 2 { "2" } else if d == 3 { "3" }
    else if d == 4 { "4" } else if d == 5 { "5" } else if d == 6 { "6" } else if d == 7 {
        "7"
    } else if d == 8 { "8" } else { "9" }
}

pub(crate) fn write_numeral(out: &mut String, n: u64)
    ensures
        final(out)@ == old(out)@ + numeral(n as nat),
    decreases n,
{
    if n >= 10 {
        write_numeral(out, n / 10);
    }
    out.append(digit_text(n % 10));
    assert(final(out)@ =~= old(out)@ + numeral(n as nat));
}

fn write_term(out: &mut String, e: &Expr)
    ensures
        final(out)@ == old(out)@ + smt_term(*e),
    decreases e,
{
    match e {
        Expr::IntLit(n) => write_numeral(out, *n),
        Expr::BoolLit(b) => {
            if *b {
                out.append("true");
            } else {
                out.append("false");
            }
        },
        Expr::Var(n, _) => {
            out.append("|");
            out.append(n.as_str());
            out.append("|");
            assert(final(out)@ =~= old(out)@ + smt_term(*e));
        },
        Expr::Fresh(b, k, _) => {
            out.append("|");
            write_fresh_name(out, *b, *k);
            out.append("|");
            assert(final(out)@ =~= old(out)@ + smt_term(*e));
        },
        Expr::Binary(op, l, r) => {
            out.append("(");
            out.append(op_text(*op));
            out.append(" ");
            write_term(out, l);
            out.append(" ");
            write_term(out, r);
            out.append(")");
            assert(final(out)@ =~= old(out)@ + smt_term(*e));
        },
        Expr::Unary(op, a) => {
            if *op == UnOp::Not {
                out.append("(not ");
            } else {
                out.append("(- ");
            }
            write_term(out, a);
            out.append(")");
            assert(final(out)@ =~= old(out)@ + smt_term(*e));
        },
    }
}

/// The variable `n` of type `t` occurs in `e`.
pub open spec fn has_var(e: Expr, n: Seq<char>, t: Ty) -> bool
    decreases e,
{
    match e {
        Expr::Var(m, u) => m@ == n && u == t,
        Expr::Fresh(b, k, u) => fresh_name(b, k) == n && u == t,
        Expr::Binary(_, l, r) => has_var(*l, n, t) || has_var(*r, n, t),
        Expr::Unary(_, a) => has_var(*a, n, t),
        _ => false,
    }
}

/// Each variable name of `e` comes with one type throughout.
pub open spec fn consistent(e: Expr) -> bool {
    forall|n: Seq<char>, t1: Ty, t2: Ty|
        #![trigger has_var(e, n, t1), has_var(e, n, t2)]
        has_var(e, n, t1) && has_var(e, n, t2) ==> t1 == t2
}

pub open spec fn distinct_names(vs: Seq<(String, Ty)>) -> bool {
    forall|i: int, j: int| 0 <= i < j < vs.len() ==> vs[i].0@ != vs[j].0@
}

/// `vs` declares exactly the variables of `e`, each name once.
pub open spec fn declares(vs: Seq<(String, Ty)>, e: Expr) -> bool {
    &&& distinct_names(vs)
    &&& forall|n: Seq<char>, t: Ty| #[trigger] has_var(e, n, t) ==> exists|j: int|
        0 <= j < vs.len() && #[trigger] vs[j].0@ == n && vs[j].1 == t
    &&& forall|j: int| 0 <= j < vs.len() ==> has_var(e, #[trigger] vs[j].0@, vs[j].1)
}

/// A name that a quoted SMT-LIB symbol can hold, and that no call result
/// takes: no `|`, `\\`, NUL or `#`.
pub open spec fn plain_name(n: Seq<char>) -> bool {
    forall|i: int|
        0 <= i < n.len() ==> #[trigger] n[i] != '|' && n[i] != '\\' && n[i] != '\0' && n[i] != '#'
}

/// Every variable of `e` has a known type and a plain name.
pub open spec fn encodable_vars(e: Expr) -> bool
    decreases e,
{
    match e {
        Expr::Var(n, t) => t != Ty::Unknown && plain_name(n@),
        Expr::Fresh(_, _, t) => t != Ty::Unknown,
        Expr::Binary(_, l, r) => encodable_vars(*l) && encodable_vars(*r),
        Expr::Unary(_, a) => encodable_vars(*a),
        _ => true,
    }
}

/// `e` can be handed to the solver: plain, typed names, one type each.
pub open spec fn encodable(e: Expr) -> bool {
    encodable_vars(e) && consistent(e)
}

fn is_plain_name(n: &String) -> (r: bool)
    ensures
        r == plain_name(n@),
{
    let s = n.as_str();
    let len = s.unicode_len();
    let mut i: usize = 0;
    while i < len
        invariant
            len == s@.len(),
            s@ == n@,
            0 <= i <= len,
            forall|k: int|
                0 <= k < i ==> #[trigger] n@[k] != '|' && n@[k] != '\\' && n@[k] != '\0' && n@[k]
                    != '#',
        decreases len - i,
    {
        let c = s.get_char(i);
        if c == '|' || c == '\\' || c == '\0' || c == '#' {
            return false;
        }
        i = i + 1;
    }
    true
}

fn check_vars(e: &Expr) -> (r: bool)
    ensures
        r == encodable_vars(*e),
    decreases e,
{
    match e {
        Expr::Var(n, t) => *t != Ty::Unknown && is_plain_name(n),
        Expr::Fresh(_, _, t) => *t != Ty::Unknown,
        Expr::Binary(_, l, r) => check_vars(l) && check_vars(r),
        Expr::Unary(_, a) => check_vars(a),
        _ => true,
    }
}

/// No character of `s` is NUL.
pub open spec fn no_nul(s: Seq<char>) -> bool {
    forall|i: int| 0 <= i < s.len() ==> #[trigger] s[i] != '\0'
}

proof fn lemma_no_nul_cat(a: Seq<char>, b: Seq<char>)
    requires
        no_nul(a),
        no_nul(b),
    ensures
        no_nul(a + b),
{
    assert forall|i: int| 0 <= i < (a + b).len() implies #[trigger] (a + b)[i] != '\0' by {
        if i < a.len() {
            assert((a + b)[i] == a[i]);
        } else {
            assert((a + b)[i] == b[i - a.len()]);
        }
    }
}

proof fn lemma_numeral_no_nul(n: nat)
    ensures
        no_nul(numeral(n)),
{
    let s = numeral(n);
    assert(s.subrange(0, s.len() as int) =~= s);
    crate::parser::lemma_numeral(n, s, 0);
    assert forall|i: int| 0 <= i < s.len() implies #[trigger] s[i] != '\0' by {
        assert(crate::parser::is_digit(s[i]));
    }
}

proof fn lemma_fresh_no_nul(b: usize, k: usize)
    ensures
        no_nul(fresh_name(b, k)),
{
    reveal_strlit("#");
    reveal_strlit(".");
    lemma_numeral_no_nul((b as u64) as nat);
    lemma_numeral_no_nul((k as u64) as nat);
    lemma_no_nul_cat("#"@, numeral((b as u64) as nat));
    lemma_no_nul_cat("#"@ + numeral((b as u64) as nat), "."@);
    lemma_no_nul_cat("#"@ + numeral((b as u64) as nat) + "."@, numeral((k as u64) as nat));
}

proof fn lemma_var_no_nul(e: Expr, n: Seq<char>, t: Ty)
    requires
        encodable_vars(e),
        has_var(e, n, t),
    ensures
        no_nul(n),
    decreases e,
{
    match e {
        Expr::Fresh(b, k, _) => lemma_fresh_no_nul(b, k),
        Expr::Binary(_, l, r) => {
            if has_var(*l, n, t) {
                lemma_var_no_nul(*l, n, t);
            } else {
                lemma_var_no_nul(*r, n, t);
            }
        },
        Expr::Unary(_, a) => lemma_var_no_nul(*a, n, t),
        _ => {},
    }
}

proof fn lemma_term_no_nul(e: Expr)
    requires
        encodable_vars(e),
    ensures
        no_nul(smt_term(e)),
    decreases e,
{
    reveal_strlit("|");
    reveal_strlit("(");
    reveal_strlit(")");
    reveal_strlit(" ");
    reveal_strlit("(not ");
    reveal_strlit("(- ");
    reveal_strlit("true");
    reveal_strlit("false");
    reveal_strlit("+");
    reveal_strlit("-");
    reveal_strlit("*");
    reveal_strlit("div");
    reveal_strlit("mod");
    reveal_strlit("=");
    reveal_strlit("distinct");
    reveal_strlit("<");
    reveal_strlit("<=");
    reveal_strlit(">");
    reveal_strlit(">=");
    reveal_strlit("and");
    reveal_strlit("or");
    reveal_strlit("=>");
    match e {
        Expr::IntLit(n) => lemma_numeral_no_nul(n as nat),
        Expr::BoolLit(_) => {},
        Expr::Var(n, _) => {
            lemma_no_nul_cat("|"@, n@);
            lemma_no_nul_cat("|"@ + n@, "|"@);
        },
        Expr::Fresh(b, k, _) => {
            lemma_fresh_no_nul(b, k);
            lemma_no_nul_cat("|"@, fresh_name(b, k));
            lemma_no_nul_cat("|"@ + fresh_name(b, k), "|"@);
        },
        Expr::Binary(op, l, r) => {
            lemma_term_no_nul(*l);
            lemma_term_no_nul(*r);
            let a0 = "("@ + op_sym(op);
            lemma_no_nul_cat("("@, op_sym(op));
            lemma_no_nul_cat(a0, " "@);
            lemma_no_nul_cat(a0 + " "@, smt_term(*l));
            lemma_no_nul_cat(a0 + " "@ + smt_term(*l), " "@);
            lemma_no_nul_cat(a0 + " "@ + smt_term(*l) + " "@, smt_term(*r));
            lemma_no_nul_cat(a0 + " "@ + smt_term(*l) + " "@ + smt_term(*r), ")"@);
        },
        Expr::Unary(op, a) => {
            lemma_term_no_nul(*a);
            let h = if op == UnOp::Not { "(not "@ } else { "(- "@ };
            lemma_no_nul_cat(h, smt_term(*a));
            lemma_no_nul_cat(h + smt_term(*a), ")"@);
        },
    }
}

proof fn lemma_decls_no_nul(vs: Seq<(String, Ty)>, k: int)
    requires
        0 <= k <= vs.len(),
        forall|j: int| 0 <= j < vs.len() ==> no_nul(#[trigger] vs[j].0@),
    ensures
        no_nul(decls(vs, k)),
    decreases k,
{
    reveal_strlit("(declare-const |");
    reveal_strlit("| ");
    reveal_strlit("Bool");
    reveal_strlit("Int");
    reveal_strlit(")\n");
    if k > 0 {
        lemma_decls_no_nul(vs, k - 1);
        let d = decls(vs, k - 1);
        let n = vs[k - 1].0@;
        assert(no_nul(n));
        lemma_no_nul_cat(d, "(declare-const |"@);
        lemma_no_nul_cat(d + "(declare-const |"@, n);
        lemma_no_nul_cat(d + "(declare-const |"@ + n, "| "@);
        lemma_no_nul_cat(d + "(declare-const |"@ + n + "| "@, sort_name(vs[k - 1].1));
        lemma_no_nul_cat(d + "(declare-const |"@ + n + "| "@ + sort_name(vs[k - 1].1), ")\n"@);
    }
}

/// The names that an encodable condition declares hold no NUL.
pub(crate) proof fn lemma_declared_no_nul(vs: Seq<(String, Ty)>, vc: Expr, j: int)
    requires
        encodable(vc),
        declares(vs, vc),
        0 <= j < vs.len(),
    ensures
        no_nul(vs[j].0@),
{
    assert(has_var(vc, vs[j].0@, vs[j].1));
    lemma_var_no_nul(vc, vs[j].0@, vs[j].1);
}

/// The script of an encodable condition holds no NUL.
pub proof fn lemma_script_no_nul(vs: Seq<(String, Ty)>, vc: Expr)
    requires
        encodable(vc),
        declares(vs, vc),
    ensures
        !script(vs, vc).contains('\0'),
{
    reveal_strlit("(assert (not ");
    reveal_strlit("))\n(check-sat)\n");
    assert forall|j: int| 0 <= j < vs.len() implies no_nul(#[trigger] vs[j].0@) by {
        assert(has_var(vc, vs[j].0@, vs[j].1));
        lemma_var_no_nul(vc, vs[j].0@, vs[j].1);
    }
    lemma_decls_no_nul(vs, vs.len() as int);
    lemma_term_no_nul(vc);
    let d = decls(vs, vs.len() as int);
    lemma_no_nul_cat(d, "(assert (not "@);
    lemma_no_nul_cat(d + "(assert (not "@, smt_term(vc));
    lemma_no_nul_cat(d + "(assert (not "@ + smt_term(vc), "))\n(check-sat)\n"@);
    let s = script(vs, vc);
    assert(no_nul(s));
    if s.contains('\0') {
        let i = choose|i: int| 0 <= i < s.len() && s[i] == '\0';
        assert(s[i] != '\0');
    }
}

/// The entry `j` of `vs` names a variable of `e` with another type.
pub open spec fn clashes(vs: Seq<(String, Ty)>, j: int, e: Expr) -> bool {
    0 <= j < vs.len() && exists|t: Ty| #[trigger] has_var(e, vs[j].0@, t) && t != vs[j].1
}

proof fn lemma_has_var_consistent(e: Expr, n: Seq<char>, t1: Ty, t2: Ty)
    requires
        has_var(e, n, t1),
        has_var(e, n, t2),
        t1 != t2,
    ensures
        !consistent(e),
{
}

/// Appends the one variable of the leaf `e`, named `n`, unless `acc`
/// names it already.
fn add_leaf(e: &Expr, n: String, t: Ty, acc: &mut Vec<(String, Ty)>) -> (ok: bool)
    requires
        distinct_names(old(acc)@),
        forall|m: Seq<char>, u: Ty| #[trigger] has_var(*e, m, u) <==> (m == n@ && u == t),
    ensures
        ok ==> {
            &&& distinct_names(final(acc)@)
            &&& old(acc)@.len() <= final(acc)@.len()
            &&& forall|i: int| 0 <= i < old(acc)@.len() ==> #[trigger] final(acc)@[i] == old(acc)@[i]
            &&& forall|m: Seq<char>, u: Ty| #[trigger] has_var(*e, m, u) ==> exists|j: int|
                0 <= j < final(acc)@.len() && #[trigger] final(acc)@[j].0@ == m && final(acc)@[j].1
                    == u
            &&& forall|j: int|
                old(acc)@.len() <= j < final(acc)@.len() ==> has_var(
                    *e,
                    #[trigger] final(acc)@[j].0@,
                    final(acc)@[j].1,
                )
        },
        !ok ==> exists|j: int| clashes(old(acc)@, j, *e),
{
    let ghost n0 = n@;
    let mut i: usize = 0;
    while i < acc.len()
        invariant
            0 <= i <= acc@.len(),
            acc@ == old(acc)@,
            forall|m: Seq<char>, u: Ty| #[trigger] has_var(*e, m, u) <==> (m == n@ && u == t),
            distinct_names(old(acc)@),
            forall|k: int| 0 <= k < i ==> #[trigger] acc@[k].0@ != n@,
        decreases acc@.len() - i,
    {
        let same = acc[i].0 == n;
        if same {
            if acc[i].1 == t {
                return true;
            } else {
                assert(has_var(*e, acc@[i as int].0@, t));
                assert(clashes(old(acc)@, i as int, *e));
                return false;
            }
        }
        i = i + 1;
    }
    let ghost k0 = old(acc)@.len() as int;
    acc.push((n, t));
    proof {
        assert(acc@[k0].0@ == n0 && acc@[k0].1 == t);
        assert(has_var(*e, acc@[k0].0@, acc@[k0].1));
        assert forall|m: Seq<char>, u: Ty| #[trigger] has_var(*e, m, u) implies exists|j: int|
            0 <= j < acc@.len() && #[trigger] acc@[j].0@ == m && acc@[j].1 == u by {
            assert(acc@[k0].0@ == m);
        }
        assert(distinct_names(acc@));
    }
    true
}

/// Appends to `acc` the variables of `e` that it does not name yet.
fn collect_vars(e: &Expr, acc: &mut Vec<(String, Ty)>) -> (ok: bool)
    requires
        distinct_names(old(acc)@),
    ensures
        ok ==> {
            &&& distinct_names(final(acc)@)
            &&& old(acc)@.len() <= final(acc)@.len()
            &&& forall|i: int| 0 <= i < old(acc)@.len() ==> #[trigger] final(acc)@[i] == old(acc)@[i]
            &&& forall|n: Seq<char>, t: Ty| #[trigger] has_var(*e, n, t) ==> exists|j: int|
                0 <= j < final(acc)@.len() && #[trigger] final(acc)@[j].0@ == n && final(acc)@[j].1
                    == t
            &&& forall|j: int|
                old(acc)@.len() <= j < final(acc)@.len() ==> has_var(
                    *e,
                    #[trigger] final(acc)@[j].0@,
                    final(acc)@[j].1,
                )
        },
        !ok ==> !consistent(*e) || exists|j: int| clashes(old(acc)@, j, *e),
    decreases e,
{
    match e {
        Expr::Var(n, t) => add_leaf(e, n.clone(), *t, acc),
        Expr::Fresh(b, k, t) => {
            let mut name = String::new();
            write_fresh_name(&mut name, *b, *k);
            assert(name@ =~= fresh_name(*b, *k));
            add_leaf(e, name, *t, acc)
        },
        Expr::Binary(_, l, r) => {
            let ghost a0 = acc@;
            if !collect_vars(l, acc) {
                assert forall|n: Seq<char>, t1: Ty, t2: Ty|
                    #![trigger has_var(**l, n, t1), has_var(**l, n, t2)]
                    has_var(**l, n, t1) && has_var(**l, n, t2) && t1 != t2 implies !consistent(*e) by {
                    lemma_has_var_consistent(*e, n, t1, t2);
                }
                proof {
                    if exists|j: int| clashes(a0, j, **l) {
                        let j = choose|j: int| clashes(a0, j, **l);
                        let t = choose|t: Ty| #[trigger] has_var(**l, a0[j].0@, t) && t != a0[j].1;
                        assert(has_var(*e, a0[j].0@, t));
                        assert(clashes(a0, j, *e));
                    }
                }
                return false;
            }
            let ghost a1 = acc@;
            let ok = collect_vars(r, acc);
            if !ok {
                assert forall|n: Seq<char>, t1: Ty, t2: Ty|
                    #![trigger has_var(**r, n, t1), has_var(**r, n, t2)]
                    has_var(**r, n, t1) && has_var(**r, n, t2) && t1 != t2 implies !consistent(*e) by {
                    lemma_has_var_consistent(*e, n, t1, t2);
                }
                proof {
                    if exists|j: int| clashes(a1, j, **r) {
                        let j = choose|j: int| clashes(a1, j, **r);
                        let t = choose|t: Ty| #[trigger] has_var(**r, a1[j].0@, t) && t != a1[j].1;
                        assert(has_var(*e, a1[j].0@, t));
                        if j < a0.len() as int {
                            assert(a1[j] == a0[j]);
                            assert(clashes(a0, j, *e));
                        } else {
                            assert(has_var(**l, a1[j].0@, a1[j].1));
                            lemma_has_var_consistent(*e, a1[j].0@, a1[j].1, t);
                        }
                    }
                }
                return false;
            }
            proof {
                assert forall|n: Seq<char>, t: Ty| #[trigger] has_var(*e, n, t) implies exists|j: int|
                    0 <= j < acc@.len() && #[trigger] acc@[j].0@ == n && acc@[j].1 == t by {
                    if !has_var(**l, n, t) {
                        assert(has_var(**r, n, t));
                    } else {
                        let j = choose|j: int|
                            0 <= j < a1.len() && #[trigger] a1[j].0@ == n && a1[j].1 == t;
                        assert(acc@[j] == a1[j]);
                    }
                }
                assert forall|j: int| a0.len() <= j < acc@.len() implies has_var(
                    *e,
                    #[trigger] acc@[j].0@,
                    acc@[j].1,
                ) by {
                    if j < a1.len() {
                        assert(acc@[j] == a1[j]);
                    }
                }
            }
            true
        },
        Expr::Unary(_, a) => {
            let ghost a0 = acc@;
            let ok = collect_vars(a, acc);
            proof {
                if !ok {
                    assert forall|n: Seq<char>, t1: Ty, t2: Ty|
                        #![trigger has_var(**a, n, t1), has_var(**a, n, t2)]
                        has_var(**a, n, t1) && has_var(**a, n, t2) && t1 != t2 implies !consistent(
                        *e,
                    ) by {
                        lemma_has_var_consistent(*e, n, t1, t2);
                    }
                    if exists|j: int| clashes(a0, j, **a) {
                        let j = choose|j: int| clashes(a0, j, **a);
                        let t = choose|t: Ty| #[trigger] has_var(**a, a0[j].0@, t) && t != a0[j].1;
                        assert(has_var(*e, a0[j].0@, t));
                        assert(clashes(a0, j, *e));
                    }
                } else {
                    assert forall|n: Seq<char>, t: Ty| #[trigger] has_var(*e, n, t) implies exists|j: int|
                        0 <= j < acc@.len() && #[trigger] acc@[j].0@ == n && acc@[j].1 == t by {
                        assert(has_var(**a, n, t));
                    }
                    assert forall|j: int| a0.len() <= j < acc@.len() implies has_var(
                        *e,
                        #[trigger] acc@[j].0@,
                        acc@[j].1,
                    ) by {
                        assert(has_var(**a, acc@[j].0@, acc@[j].1));
                    }
                }
            }
            ok
        },
        _ => true,
    }
}

proof fn lemma_declares_consistent(vs: Seq<(String, Ty)>, e: Expr)
    requires
        declares(vs, e),
    ensures
        consistent(e),
{
    assert forall|n: Seq<char>, t1: Ty, t2: Ty|
        #![trigger has_var(e, n, t1), has_var(e, n, t2)]
        has_var(e, n, t1) && has_var(e, n, t2) implies t1 == t2 by {
        let j1 = choose|j: int| 0 <= j < vs.len() && #[trigger] vs[j].0@ == n && vs[j].1 == t1;
        let j2 = choose|j: int| 0 <= j < vs.len() && #[trigger] vs[j].0@ == n && vs[j].1 == t2;
        if j1 < j2 {
            assert(vs[j1].0@ != vs[j2].0@);
        } else if j2 < j1 {
            assert(vs[j2].0@ != vs[j1].0@);
        }
    }
}

/// The variables of `e` to declare, in order of first occurrence; `None`
/// when `e` is not encodable.
pub fn declared_vars(e: &Expr) -> (r: Option<Vec<(String, Ty)>>)
    ensures
        r is Some <==> encodable(*e),
        r matches Some(vs) ==> declares(vs@, *e),
{
    if !check_vars(e) {
        return None;
    }
    let mut acc: Vec<(String, Ty)> = Vec::new();
    if collect_vars(e, &mut acc) {
        proof {
            lemma_declares_consistent(acc@, *e);
        }
        Some(acc)
    } else {
        None
    }
}

pub open spec fn sort_name(t: Ty) -> Seq<char> {
    if t == Ty::Bool {
        "Bool"@
    } else {
        "Int"@
    }
}

/// The declarations of the first `k` variables of `vs`.
pub open spec fn decls(vs: Seq<(String, Ty)>, k: int) -> Seq<char>
    decreases k,
{
    if k <= 0 {
        Seq::empty()
    } else {
        decls(vs, k - 1) + "(declare-const |"@ + vs[k - 1].0@ + "| "@ + sort_name(vs[k - 1].1)
            + ")\n"@
    }
}

/// The SMT-LIB script that asks whether `vc` can be false.
pub open spec fn script(vs: Seq<(String, Ty)>, vc: Expr) -> Seq<char> {
    decls(vs, vs.len() as int) + "(assert (not "@ + smt_term(vc) + "))\n(check-sat)\n"@
}

fn sort_text(t: Ty) -> (r: &'static str)
    ensures
        r@ == sort_name(t),
{
    if t == Ty::Bool {
        "Bool"
    } else {
        "Int"
    }
}

/// The script that declares `vs` and asserts that `vc` fails.
pub fn write_script(vs: &Vec<(String, Ty)>, vc: &Expr) -> (r: String)
    ensures
        r@ == script(vs@, *vc),
{
    let mut out = String::new();
    let mut i: usize = 0;
    while i < vs.len()
        invariant
            0 <= i <= vs@.len(),
            out@ == decls(vs@, i as int),
        decreases vs@.len() - i,
    {
        out.append("(declare-const |");
        out.append(vs[i].0.as_str());
        out.append("| ");
        out.append(sort_text(vs[i].1));
        out.append(")\n");
        assert(out@ =~= decls(vs@, i as int + 1));
        i = i + 1;
    }
    out.append("(assert (not ");
    write_term(&mut out, vc);
    out.append("))\n(check-sat)\n");
    assert(out@ =~= script(vs@, *vc));
    out
}

/// The encoding of `vc` for the solver: the script that declares its
/// variables and asserts its negation, or `None` when it is not encodable.
pub fn encode(vc: &Expr) -> (r: Option<String>)
    ensures
        r is Some <==> encodable(*vc),
        r matches Some(text) ==> exists|vs: Seq<(String, Ty)>|
            declares(vs, *vc) && text@ == #[trigger] script(vs, *vc),
{
    match declared_vars(vc) {
        Some(vs) => {
            let text = write_script(&vs, vc);
            Some(text)
        },
        None => None,
    }
}

} // verus!
