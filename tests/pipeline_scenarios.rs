use stanley::expr::{BinOp, Expr, Ty, UnOp};
use stanley::parser::{parse, parse_tokens, print_tokens, show, tokenize};
use stanley::pipeline::{verify_conditions, verify_function, Report};
use stanley::smt::encode;
use stanley::solver::{check, interpret, Reason, SatOutcome, Value, Verdict};
use stanley::typeck::{resolve, resolve_condition, typecheck, Operator, TypeError, VarTable};
use stanley::wp::{build_vc, substitute, substitute_all, wp, Block, CallSite, Cfg, Contract, Stmt, Terminator, Unsupported};

fn var(n: &str, t: Ty) -> Expr {
    Expr::Var(n.to_string(), t)
}

fn ivar(n: &str) -> Expr {
    var(n, Ty::Int)
}

fn lit(v: u64) -> Expr {
    Expr::IntLit(v)
}

fn bin(op: BinOp, l: Expr, r: Expr) -> Expr {
    Expr::Binary(op, Box::new(l), Box::new(r))
}

fn neg(a: Expr) -> Expr {
    Expr::Unary(UnOp::Neg, Box::new(a))
}

fn block(stmts: Vec<Stmt>, term: Terminator) -> Block {
    Block { stmts, term, invariant: None }
}

fn int_table(names: &[&str]) -> VarTable {
    VarTable {
        entries: names.iter().map(|n| (n.to_string(), Ty::Int)).collect(),
        ret_ty: Ty::Int,
    }
}

fn text(e: &Expr) -> String {
    show(e)
}

#[test]
fn parse_respects_precedence() {
    let e = parse("a + b * c - d < 3 == p && !q || r ==> s ==> t").unwrap();
    assert_eq!(text(&e), "(((((((a + (b * c)) - d) < 3) == p) && !q) || r) ==> (s ==> t))");
}

#[test]
fn parse_all_operators_fully_parenthesised() {
    let e = parse("x % 2 / y * -z").unwrap();
    assert_eq!(text(&e), "(((x % 2) / y) * -z)");
    let e = parse("(a <= b) != (c >= d) && e > f").unwrap();
    assert_eq!(text(&e), "(((a <= b) != (c >= d)) && (e > f))");
    let e = parse("true || false").unwrap();
    assert_eq!(text(&e), "(true || false)");
}

#[test]
fn parse_print_round_trip() {
    let sources = [
        "a + b * c - d < 3 == p && !q || r ==> s ==> t",
        "x % 2 / y * -z",
        "(a <= b) != (c >= d) && e > f",
        "--x + !(!p) - 0",
        "ret > x ==> (y == 18446744073709551615)",
    ];
    for s in sources.iter() {
        let e = parse(s).unwrap();
        let printed = show(&e);
        let again = parse(&printed).unwrap();
        assert_eq!(show(&again), printed);
    }
}

#[test]
fn parse_leaves_variables_untyped() {
    let e = parse("x > 0").unwrap();
    match e {
        Expr::Binary(BinOp::Gt, l, _) => match *l {
            Expr::Var(n, t) => {
                assert_eq!(n, "x");
                assert_eq!(t, Ty::Unknown);
            }
            _ => panic!("expected a variable"),
        },
        _ => panic!("expected a comparison"),
    }
}

#[test]
fn parse_errors_carry_a_span() {
    let err = parse("x +").unwrap_err();
    assert_eq!(err.start, 3);
    let err = parse("(x").unwrap_err();
    assert_eq!(err.expected, "a closing parenthesis");
    let err = parse("x $ y").unwrap_err();
    assert_eq!(err.start, 2);
    assert_eq!(err.end, 3);
    let err = parse("x y").unwrap_err();
    assert_eq!(err.start, 2);
    let err = parse("18446744073709551616").unwrap_err();
    assert_eq!(err.expected, "an integer that fits in 64 bits");
    assert!(parse("").is_err());
}

#[test]
fn tokenize_records_positions() {
    let (ts, ps) = tokenize("  x ==> y").unwrap();
    assert_eq!(ts.len(), 3);
    assert_eq!(ps, vec![2, 4, 8]);
}

#[test]
fn resolve_binds_types_and_ret() {
    let table = VarTable { entries: vec![("b".to_string(), Ty::Bool), ("x".to_string(), Ty::Int)], ret_ty: Ty::Int };
    let e = parse("b && ret > x").unwrap();
    let r = resolve(&e, &table).unwrap();
    assert_eq!(typecheck(&r).unwrap(), Ty::Bool);
    match r {
        Expr::Binary(_, l, _) => match *l {
            Expr::Var(_, t) => assert_eq!(t, Ty::Bool),
            _ => panic!("expected a variable"),
        },
        _ => panic!("expected a conjunction"),
    }
}

#[test]
fn resolve_twice_gives_the_same_tree() {
    let table = int_table(&["x", "y"]);
    let e = parse("x + y * 2 > ret").unwrap();
    let a = resolve(&e, &table).unwrap();
    let b = resolve(&e, &table).unwrap();
    assert_eq!(format!("{:?}", a), format!("{:?}", b));
}

#[test]
fn unknown_variable_is_a_type_error() {
    let table = int_table(&["x"]);
    let e = parse("x > 0 && z > 1").unwrap();
    match resolve(&e, &table) {
        Err(TypeError::UnknownVariable(n)) => assert_eq!(n, "z"),
        other => panic!("unexpected {:?}", other),
    }
    let cfg = Cfg { blocks: vec![block(vec![], Terminator::Return(ivar("x")))], entry: 0 };
    match verify_function("z > 0", "ret > 0", &table, &cfg, 5000) {
        Report::Type(TypeError::UnknownVariable(n)) => assert_eq!(n, "z"),
        other => panic!("unexpected {:?}", other),
    }
}

#[test]
fn type_mismatch_and_non_boolean_roots() {
    let table = VarTable { entries: vec![("x".to_string(), Ty::Int), ("b".to_string(), Ty::Bool)], ret_ty: Ty::Int };
    let e = parse("x + b > 0").unwrap();
    match resolve_condition(&e, &table) {
        Err(TypeError::Mismatch(Operator::Bin(BinOp::Add), node, Ty::Int, Ty::Bool)) => {
            assert_eq!(show(&node), "(x + b)")
        }
        other => panic!("unexpected {:?}", other),
    }
    let e = parse("x == b").unwrap();
    match resolve_condition(&e, &table) {
        Err(TypeError::Mismatch(Operator::Bin(BinOp::Eq), node, Ty::Int, Ty::Bool)) => {
            assert_eq!(show(&node), "(x == b)")
        }
        other => panic!("unexpected {:?}", other),
    }
    let e = parse("!x").unwrap();
    match resolve_condition(&e, &table) {
        Err(TypeError::Mismatch(Operator::Un(UnOp::Not), node, Ty::Bool, Ty::Int)) => {
            assert_eq!(show(&node), "!x")
        }
        other => panic!("unexpected {:?}", other),
    }
    let e = parse("x + 1").unwrap();
    match resolve_condition(&e, &table) {
        Err(TypeError::NotBoolean(Ty::Int)) => {}
        other => panic!("unexpected {:?}", other),
    }
    match typecheck(&parse("y").unwrap()) {
        Err(TypeError::Unresolved(n)) => assert_eq!(n, "y"),
        other => panic!("unexpected {:?}", other),
    }
}

#[test]
fn wp_of_increment() {
    let cfg = Cfg {
        blocks: vec![block(
            vec![Stmt::Assign("x".to_string(), bin(BinOp::Add, ivar("x"), lit(1)))],
            Terminator::Return(ivar("x")),
        )],
        entry: 0,
    };
    let post = bin(BinOp::Gt, ivar("x"), lit(0));
    let w = wp(&cfg, 0, 1, &post, false).unwrap();
    assert_eq!(show(&w), "((x + 1) > 0)");
    let table = int_table(&["x"]);
    match verify_function("x > -1", "x > 0", &table, &cfg, 5000) {
        Report::Checked(Verdict::Valid) => {}
        other => panic!("unexpected {:?}", other),
    }
}

#[test]
fn substitute_replaces_every_occurrence() {
    let e = parse("x + x * y").unwrap();
    let r = substitute(&e, &"x".to_string(), &lit(7));
    assert_eq!(show(&r), "(7 + (7 * y))");
}

fn branch_cfg() -> Cfg {
    Cfg {
        blocks: vec![
            block(vec![], Terminator::Branch(bin(BinOp::Gt, ivar("x"), lit(0)), 1, 2)),
            block(vec![Stmt::Assign("y".to_string(), lit(1))], Terminator::Goto(3)),
            block(vec![Stmt::Assign("y".to_string(), neg(lit(1)))], Terminator::Goto(3)),
            block(vec![], Terminator::Return(ivar("y"))),
        ],
        entry: 0,
    }
}

#[test]
fn conditional_wp_is_a_tautology() {
    let cfg = branch_cfg();
    let post = bin(BinOp::Ne, ivar("y"), lit(0));
    let w = wp(&cfg, 0, 4, &post, false).unwrap();
    assert_eq!(show(&w), "(((x > 0) ==> (1 != 0)) && (!(x > 0) ==> (-1 != 0)))");
    let table = int_table(&["x", "y"]);
    match verify_function("true", "y != 0", &table, &cfg, 5000) {
        Report::Checked(Verdict::Valid) => {}
        other => panic!("unexpected {:?}", other),
    }
}

#[test]
fn refutation_gives_a_counterexample() {
    let cfg = Cfg {
        blocks: vec![block(vec![], Terminator::Return(bin(BinOp::Sub, ivar("x"), lit(10))))],
        entry: 0,
    };
    let table = int_table(&["x"]);
    match verify_function("x > 0", "ret > 0", &table, &cfg, 5000) {
        Report::Checked(Verdict::Invalid(model)) => {
            assert_eq!(model.len(), 1);
            assert_eq!(model[0].0, "x");
            match model[0].1 {
                Value::Int(x) => assert!(0 < x && x <= 10),
                other => panic!("unexpected {:?}", other),
            }
        }
        other => panic!("unexpected {:?}", other),
    }
}

fn loop_cfg(invariant: Option<Expr>) -> Cfg {
    Cfg {
        blocks: vec![
            block(vec![], Terminator::Goto(1)),
            Block {
                stmts: vec![],
                term: Terminator::Branch(bin(BinOp::Gt, ivar("x"), lit(0)), 2, 3),
                invariant,
            },
            block(vec![Stmt::Assign("x".to_string(), bin(BinOp::Sub, ivar("x"), lit(1)))], Terminator::Goto(1)),
            block(vec![], Terminator::Return(ivar("x"))),
        ],
        entry: 0,
    }
}

#[test]
fn loop_without_invariant_is_unsupported() {
    let table = int_table(&["x"]);
    let cfg = loop_cfg(None);
    match verify_function("x >= 0", "ret == 0", &table, &cfg, 5000) {
        Report::Unsupported(Unsupported::UnannotatedLoop) => {}
        other => panic!("unexpected {:?}", other),
    }
}

#[test]
fn loop_with_invariant_is_checked() {
    let table = int_table(&["x"]);
    let inv = bin(BinOp::Ge, ivar("x"), lit(0));
    let cfg = loop_cfg(Some(inv));
    match verify_function("x >= 0", "ret == 0", &table, &cfg, 5000) {
        Report::Checked(Verdict::Valid) => {}
        other => panic!("unexpected {:?}", other),
    }
    let unestablished = bin(BinOp::Gt, ivar("x"), lit(5));
    let cfg = loop_cfg(Some(unestablished));
    match verify_function("x >= 0", "ret == 0", &table, &cfg, 5000) {
        Report::Checked(Verdict::Invalid(_)) => {}
        other => panic!("unexpected {:?}", other),
    }
}

#[test]
fn calls_and_missing_blocks_are_unsupported() {
    let pre = Expr::BoolLit(true);
    let post = bin(BinOp::Gt, ivar("ret"), lit(0));
    let cfg = Cfg {
        blocks: vec![block(
            vec![Stmt::Call(CallSite {
                dest: "y".to_string(),
                dest_ty: Ty::Int,
                callee: "helper".to_string(),
                args: vec![],
                contract: None,
            })],
            Terminator::Return(ivar("y")),
        )],
        entry: 0,
    };
    match build_vc(&pre, &post, &cfg) {
        Err(Unsupported::OpaqueCall(f)) => assert_eq!(f, "helper"),
        other => panic!("unexpected {:?}", other),
    }
    let cfg = Cfg { blocks: vec![block(vec![], Terminator::Goto(5))], entry: 0 };
    match build_vc(&pre, &post, &cfg) {
        Err(Unsupported::MissingBlock(5)) => {}
        other => panic!("unexpected {:?}", other),
    }
}

#[test]
fn building_the_vc_twice_is_identical() {
    let cfg = branch_cfg();
    let pre = Expr::BoolLit(true);
    let post = bin(BinOp::Ne, ivar("y"), lit(0));
    let a = build_vc(&pre, &post, &cfg).unwrap();
    let b = build_vc(&pre, &post, &cfg).unwrap();
    assert_eq!(show(&a), show(&b));
    assert_eq!(show(&a), "(true ==> (((x > 0) ==> (1 != 0)) && (!(x > 0) ==> (-1 != 0))))");
}

#[test]
fn encoding_is_smtlib() {
    let e = bin(
        BinOp::Implies,
        var("p", Ty::Bool),
        bin(BinOp::Ne, bin(BinOp::Mod, ivar("x"), lit(12)), neg(ivar("x"))),
    );
    assert_eq!(
        encode(&e).unwrap(),
        "(declare-const |p| Bool)\n(declare-const |x| Int)\n(assert (not (=> |p| (distinct (mod |x| 12) (- |x|)))))\n(check-sat)\n"
    );
    assert!(encode(&var("y", Ty::Unknown)).is_none());
    assert!(encode(&var("a|b", Ty::Int)).is_none());
    assert!(encode(&bin(BinOp::And, var("x", Ty::Bool), bin(BinOp::Gt, ivar("x"), lit(0)))).is_none());
}

#[test]
fn interpret_maps_solver_answers() {
    assert!(matches!(interpret(SatOutcome::Unsat, None, String::new()), Verdict::Valid));
    match interpret(SatOutcome::Sat, Some(vec![("x".to_string(), Value::Int(3))]), String::new()) {
        Verdict::Invalid(m) => assert_eq!(m, vec![("x".to_string(), Value::Int(3))]),
        other => panic!("unexpected {:?}", other),
    }
    assert!(matches!(interpret(SatOutcome::Sat, None, String::new()), Verdict::Unknown(Reason::Solver(_))));
    match interpret(SatOutcome::Unknown, None, "timeout".to_string()) {
        Verdict::Unknown(Reason::Solver(r)) => assert_eq!(r, "timeout"),
        other => panic!("unexpected {:?}", other),
    }
}

#[test]
fn boolean_counterexample_values() {
    let table = VarTable { entries: vec![("p".to_string(), Ty::Bool)], ret_ty: Ty::Bool };
    let cfg = Cfg { blocks: vec![block(vec![], Terminator::Return(var("p", Ty::Bool)))], entry: 0 };
    let pre = resolve(&parse("true").unwrap(), &table).unwrap();
    let post = resolve(&parse("ret").unwrap(), &table).unwrap();
    match verify_conditions(&pre, &post, &table, &cfg, 5000) {
        Report::Checked(Verdict::Invalid(m)) => assert_eq!(m, vec![("p".to_string(), Value::Bool(false))]),
        other => panic!("unexpected {:?}", other),
    }
}

#[test]
fn malformed_condition_is_a_parse_error() {
    let table = int_table(&["x"]);
    let cfg = Cfg { blocks: vec![block(vec![], Terminator::Return(ivar("x")))], entry: 0 };
    assert!(matches!(verify_function("x >", "ret > 0", &table, &cfg, 5000), Report::Parse(_)));
}

fn inc_call(args: Vec<Expr>) -> Cfg {
    let contract = Contract {
        params: vec!["a".to_string()],
        pre: bin(BinOp::Ge, ivar("a"), lit(0)),
        post: bin(BinOp::Eq, ivar("ret"), bin(BinOp::Add, ivar("a"), lit(1))),
    };
    Cfg {
        blocks: vec![block(
            vec![Stmt::Call(CallSite {
                dest: "y".to_string(),
                dest_ty: Ty::Int,
                callee: "inc".to_string(),
                args,
                contract: Some(contract),
            })],
            Terminator::Return(ivar("y")),
        )],
        entry: 0,
    }
}

#[test]
fn call_with_contract_assumes_its_postcondition() {
    let table = int_table(&["x", "y"]);
    let cfg = inc_call(vec![ivar("x")]);
    let post = bin(BinOp::Gt, ivar("ret"), lit(0));
    let w = wp(&cfg, 0, 1, &post, false).unwrap();
    assert_eq!(show(&w), "((x >= 0) && ((#0.0 == (x + 1)) ==> (#0.0 > 0)))");
    match verify_function("x >= 0", "ret > 0", &table, &cfg, 5000) {
        Report::Checked(Verdict::Valid) => {}
        other => panic!("unexpected {:?}", other),
    }
    match verify_function("true", "ret > 0", &table, &cfg, 5000) {
        Report::Checked(Verdict::Invalid(_)) => {}
        other => panic!("unexpected {:?}", other),
    }
}

#[test]
fn call_with_wrong_arity_is_unsupported() {
    let cfg = inc_call(vec![]);
    let post = bin(BinOp::Gt, ivar("ret"), lit(0));
    match build_vc(&Expr::BoolLit(true), &post, &cfg) {
        Err(Unsupported::ArityMismatch(f)) => assert_eq!(f, "inc"),
        other => panic!("unexpected {:?}", other),
    }
}

#[test]
fn substitute_all_is_simultaneous() {
    let e = parse("a + b").unwrap();
    let xs = vec!["a".to_string(), "b".to_string()];
    let vs = vec![parse("b").unwrap(), parse("a * 2").unwrap()];
    assert_eq!(show(&substitute_all(&e, &xs, &vs)), "(b + (a * 2))");
}

#[test]
fn printed_tokens_read_back() {
    let sources = [
        "a + b * c - d < 3 == p && !q || r ==> s ==> t",
        "-(x % 2) / y * -z >= 0",
        "!(p ==> q) != false",
    ];
    for s in sources.iter() {
        let e = parse(s).unwrap();
        let ts = print_tokens(&e);
        let ps: Vec<usize> = (0..ts.len()).collect();
        let again = parse_tokens(&ts, &ps, ts.len()).unwrap();
        assert_eq!(show(&again), show(&e));
    }
}

#[test]
fn call_result_is_not_confused_with_the_old_value() {
    let contract = Contract {
        params: vec!["a".to_string()],
        pre: Expr::BoolLit(true),
        post: bin(BinOp::Eq, ivar("ret"), bin(BinOp::Add, ivar("a"), lit(1))),
    };
    let cfg = Cfg {
        blocks: vec![block(
            vec![Stmt::Call(CallSite {
                dest: "x".to_string(),
                dest_ty: Ty::Int,
                callee: "inc".to_string(),
                args: vec![ivar("x")],
                contract: Some(contract),
            })],
            Terminator::Return(ivar("x")),
        )],
        entry: 0,
    };
    let post = bin(BinOp::Eq, ivar("ret"), lit(0));
    let vc = build_vc(&Expr::BoolLit(true), &post, &cfg).unwrap();
    assert_eq!(show(&vc), "(true ==> (true && ((#0.0 == (x + 1)) ==> (#0.0 == 0))))");
    let table = int_table(&["x"]);
    match verify_function("true", "ret == 0", &table, &cfg, 5000) {
        Report::Checked(Verdict::Invalid(m)) => {
            assert_eq!(m.len(), 2);
            assert_eq!(m[0].0, "#0.0");
            assert_eq!(m[1].0, "x");
        }
        other => panic!("unexpected {:?}", other),
    }
}

#[test]
fn unreachable_loop_without_invariant_is_unsupported() {
    let cfg = Cfg {
        blocks: vec![
            block(vec![], Terminator::Return(ivar("x"))),
            block(vec![], Terminator::Goto(2)),
            block(vec![Stmt::Assign("x".to_string(), bin(BinOp::Add, ivar("x"), lit(1)))], Terminator::Goto(1)),
        ],
        entry: 0,
    };
    let post = bin(BinOp::Ge, ivar("ret"), ivar("x"));
    match build_vc(&Expr::BoolLit(true), &post, &cfg) {
        Err(Unsupported::UnannotatedLoop) => {}
        other => panic!("unexpected {:?}", other),
    }
}

#[test]
fn parse_error_span_stays_within_the_text() {
    let err = parse("(x").unwrap_err();
    assert!(err.start <= err.end && err.end <= 2);
    let err = parse("x ==").unwrap_err();
    assert_eq!((err.start, err.end), (4, 4));
}

#[test]
fn ill_typed_or_unencodable_conditions_never_reach_the_solver() {
    let cfg = Cfg {
        blocks: vec![
            block(vec![], Terminator::Branch(ivar("x"), 1, 1)),
            block(vec![], Terminator::Return(ivar("x"))),
        ],
        entry: 0,
    };
    let table = int_table(&["x"]);
    match verify_function("true", "ret > 0", &table, &cfg, 5000) {
        Report::Checked(Verdict::Unknown(Reason::Encoding)) => {}
        other => panic!("unexpected {:?}", other),
    }
    assert!(matches!(check(&bin(BinOp::Add, ivar("x"), lit(1)), 5000), Verdict::Unknown(Reason::Encoding)));
    assert!(matches!(check(&bin(BinOp::Gt, var("a|b", Ty::Int), lit(1)), 5000), Verdict::Unknown(Reason::Encoding)));
    assert!(matches!(check(&bin(BinOp::Gt, var("y", Ty::Unknown), lit(1)), 5000), Verdict::Unknown(Reason::Encoding)));
    assert!(matches!(check(&bin(BinOp::Ge, ivar("x"), ivar("x")), 5000), Verdict::Valid));
}

#[test]
fn parse_errors_say_what_was_expected() {
    for s in ["x +", "(x > 0", "x $ y", "x y", ""].iter() {
        let err = parse(s).unwrap_err();
        assert!(!err.expected.is_empty());
    }
    assert_eq!(parse("x y").unwrap_err().expected, "an operator or the end of the condition");
}
