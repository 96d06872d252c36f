use flanelly::aexp::AExp;
use flanelly::ast::Prog;
use flanelly::cfg::{ast_to_cfg, Edge, Node};
use flanelly::common::VarName;
use flanelly::flow_analysis::avail_exp::ExpSetLat;
use flanelly::flow_analysis::const_prop::{ConstLat, MultiConstLat};
use flanelly::flow_analysis::mfp::mfp;
use flanelly::interpreter::eval;
use flanelly::parser::parse;

fn program(text: &str) -> Prog {
    parse(text).unwrap()
}

fn known(env: &MultiConstLat, x: &str) -> ConstLat {
    *env.lookup(&VarName::new(x))
}

fn has(set: &ExpSetLat, text: &str) -> bool {
    let set = set.set();
    (0..set.size()).any(|i| set.get(i).to_string() == text)
}

#[test]
fn skip_outputs_zero_and_has_no_terminal() {
    let p = program("skip");
    assert_eq!(eval(&p, 7, 1000), Some(0));
    let cfg = ast_to_cfg(&p);
    assert_eq!(cfg.node_count(), 2);
    assert_eq!(*cfg.node(0), Node::Init);
    assert_eq!(*cfg.node(1), Node::Skip);
    assert_eq!(cfg.edge_count(), 1);
    assert_eq!(cfg.edge(0), (0, 1, Edge::Plain));
    assert!((0..cfg.node_count()).all(|n| *cfg.node(n) != Node::Terminal));
}

#[test]
fn increment_of_the_input() {
    let p = program("z := x + 1");
    assert_eq!(eval(&p, 41, 1000), Some(42));
    let solved = mfp::<MultiConstLat>(&ast_to_cfg(&p));
    let assign = solved.annot(1);
    assert_eq!(known(&assign.pre, "x"), ConstLat::Top);
    assert_eq!(known(&assign.pre, "z"), ConstLat::Const(0));
    assert_eq!(assign.pre.default_value(), ConstLat::Const(0));
    assert_eq!(known(&assign.post, "x"), ConstLat::Top);
    assert_eq!(known(&assign.post, "z"), ConstLat::Top);
    assert_eq!(assign.post.default_value(), ConstLat::Const(0));
    assert_eq!(assign.post.bindings().len(), 2);
}

#[test]
fn product_of_constants() {
    let p = program("y := 2; z := y * 3");
    for x in [-3, 0, 7, i32::MAX] {
        assert_eq!(eval(&p, x, 1000), Some(6));
    }
    let solved = mfp::<MultiConstLat>(&ast_to_cfg(&p));
    let last = solved.annot(2);
    assert_eq!(known(&last.post, "y"), ConstLat::Const(2));
    assert_eq!(known(&last.post, "z"), ConstLat::Const(6));
    assert_eq!(known(&last.post, "x"), ConstLat::Top);
    assert_eq!(last.post.default_value(), ConstLat::Const(0));
}

#[test]
fn branches_join_to_top() {
    let p = program("if x <= 0 then z := 1 else z := 2 end");
    assert_eq!(eval(&p, -1, 1000), Some(1));
    assert_eq!(eval(&p, 5, 1000), Some(2));
    // Both branches end with a plain edge, so nothing is joined in the graph
    // of the conditional alone.
    let cfg = ast_to_cfg(&p);
    assert_eq!(cfg.node_count(), 4);
    assert!((0..cfg.node_count()).all(|n| *cfg.node(n) != Node::Terminal));
    // A statement after the conditional is where the branches meet.
    let q = program("if x <= 0 then z := 1 else z := 2 end; skip");
    let solved = mfp::<MultiConstLat>(&ast_to_cfg(&q));
    assert_eq!(*solved.node(4), Node::Skip);
    let join = solved.annot(4);
    assert_eq!(known(&join.pre, "z"), ConstLat::Top);
    assert_eq!(known(&join.pre, "x"), ConstLat::Top);
    assert_eq!(join.pre.default_value(), ConstLat::Const(0));
    assert_eq!(known(&solved.annot(2).post, "z"), ConstLat::Const(1));
    assert_eq!(known(&solved.annot(3).post, "z"), ConstLat::Const(2));
}

#[test]
fn guard_of_a_loop_ends_in_the_terminal() {
    let p = program("y := x * x; while y <= 10 do y := y + 1 end");
    let cfg = ast_to_cfg(&p);
    assert_eq!(cfg.node_count(), 5);
    assert_eq!(*cfg.node(4), Node::Terminal);
    let edges: Vec<_> = (0..cfg.edge_count()).map(|e| cfg.edge(e)).collect();
    assert_eq!(
        edges,
        vec![
            (0, 1, Edge::Plain),
            (1, 2, Edge::Plain),
            (2, 3, Edge::True),
            (3, 2, Edge::Plain),
            (2, 4, Edge::False),
        ]
    );
}

#[test]
fn available_expressions_of_a_loop() {
    let p = program("y := x * x; while y <= 10 do y := y + 1 end");
    let solved = mfp::<ExpSetLat>(&ast_to_cfg(&p));
    // the first assignment computes x*x and does not assign to x
    let first = solved.annot(1);
    assert_eq!(first.pre.set().len(), 0);
    assert!(has(&first.post, "x*x"));
    assert!(has(&first.post, "x"));
    assert_eq!(first.post.set().len(), 2);
    // at the head of the loop, the flows from the assignment before it and
    // from the assignment in it meet: x*x stays available, and nothing in
    // which y occurs is
    let head = solved.annot(2);
    assert!(has(&head.pre, "x*x"));
    assert!(has(&head.pre, "x"));
    assert!(!has(&head.pre, "y + 1"));
    assert!(!has(&head.pre, "y"));
    assert_eq!(head.pre.set().len(), 2);
    assert!(has(&head.post, "x*x"));
    assert!(has(&head.post, "y"));
    assert!(has(&head.post, "10"));
    assert_eq!(head.post.set().len(), 4);
    // the assignment in the loop takes away what it assigns to
    let body = solved.annot(3);
    assert!(has(&body.pre, "x*x"));
    assert!(!has(&body.post, "y + 1"));
    assert!(!has(&body.post, "y"));
    assert!(has(&body.post, "x*x"));
    assert!(has(&body.post, "x"));
    assert!(has(&body.post, "1"));
    assert!(has(&body.post, "10"));
    assert_eq!(body.post.set().len(), 4);
    // after the loop
    let end = solved.annot(4);
    assert!(has(&end.pre, "x*x"));
    assert!(!has(&end.pre, "y + 1"));
    assert!(end.pre == head.post);
}

#[test]
fn reassigned_input_is_not_available_in_the_loop() {
    let p = program("y := x * x; while y <= 10 do x := x + 1 end");
    let solved = mfp::<ExpSetLat>(&ast_to_cfg(&p));
    let head = solved.annot(2);
    assert!(!has(&head.pre, "x*x"));
    assert!(!has(&head.pre, "x"));
    assert_eq!(head.pre.set().len(), 0);
    assert!(has(&head.post, "y"));
    assert!(has(&head.post, "10"));
    assert_eq!(head.post.set().len(), 2);
}

#[test]
fn assignment_to_its_own_variable_is_not_available() {
    let p = program("x := x + 1; skip");
    let solved = mfp::<ExpSetLat>(&ast_to_cfg(&p));
    let after = solved.annot(2);
    assert!(!has(&after.pre, "x + 1"));
    assert!(!has(&after.pre, "x"));
    assert!(has(&after.pre, "1"));
    assert_eq!(after.pre.set().len(), 1);
}

#[test]
fn endless_loop_runs_out_of_fuel_and_is_analysed() {
    let p = program("while 1 <= 1 do skip end");
    for fuel in [0, 1, 10, 1000] {
        assert_eq!(eval(&p, 3, fuel), None);
    }
    let cfg = ast_to_cfg(&p);
    let consts = mfp::<MultiConstLat>(&cfg);
    assert_eq!(known(&consts.annot(1).pre, "x"), ConstLat::Top);
    assert_eq!(known(&consts.annot(2).post, "z"), ConstLat::Const(0));
    let avail = mfp::<ExpSetLat>(&cfg);
    assert!(has(&avail.annot(1).post, "1"));
    assert_eq!(avail.annot(2).pre.to_string(), avail.annot(1).post.to_string());
}

#[test]
fn loop_that_ends_needs_fuel_for_each_turn() {
    let p = program("while x <= 2 do x := x + 1; z := z + 10 end");
    assert_eq!(eval(&p, 0, 3), Some(30));
    assert_eq!(eval(&p, 0, 2), None);
    assert_eq!(eval(&p, 3, 0), Some(0));
}

#[test]
fn arithmetic_wraps_around() {
    let p = program("z := x + 1; y := x * 2");
    assert_eq!(eval(&p, i32::MAX, 10), Some(i32::MIN));
    let q = program("y := 2147483647; z := y + 1");
    let solved = mfp::<MultiConstLat>(&ast_to_cfg(&q));
    assert_eq!(known(&solved.annot(2).post, "z"), ConstLat::Const(i32::MIN));
    assert_eq!(eval(&q, 0, 10), Some(i32::MIN));
    let e = AExp::Mul(Box::new(AExp::Num(65536)), Box::new(AExp::Num(65536)));
    assert_eq!(MultiConstLat::new(Vec::new(), ConstLat::Bot).eval_aexp(&e), ConstLat::Const(0));
}
