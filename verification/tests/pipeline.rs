use flanelly::aexp::AExp;
use flanelly::ast::{Prog, ProgAtom};
use flanelly::bexp::BExp;
use flanelly::cfg::{ast_to_cfg, Edge, Node};
use flanelly::common::VarName;
use flanelly::flow_analysis::avail_exp::ExpSetLat;
use flanelly::flow_analysis::const_prop::{ConstLat, MultiConstLat};
use flanelly::flow_analysis::mfp::mfp;

fn var(s: &str) -> Box<AExp> {
    Box::new(AExp::Var(VarName::new(s)))
}

fn num(n: i32) -> Box<AExp> {
    Box::new(AExp::Num(n))
}

#[test]
fn lowering_of_skip() {
    let p = Prog::Prog(vec![ProgAtom::Skip]);
    let cfg = ast_to_cfg(&p);
    assert_eq!(cfg.node_count(), 2);
    assert_eq!(cfg.edge_count(), 1);
    assert_eq!(*cfg.node(0), Node::Init);
    assert_eq!(*cfg.node(1), Node::Skip);
    assert_eq!(cfg.edge(0), (0, 1, Edge::Plain));
}

#[test]
fn constants_after_two_assignments() {
    let p = Prog::Prog(vec![
        ProgAtom::Assign(VarName::new("y"), num(2)),
        ProgAtom::Assign(VarName::new("z"), Box::new(AExp::Mul(var("y"), num(3)))),
    ]);
    let cfg = ast_to_cfg(&p);
    let solved = mfp::<MultiConstLat>(&cfg);
    let last = solved.annot(2);
    assert_eq!(*last.post.lookup(&VarName::new("y")), ConstLat::Const(2));
    assert_eq!(*last.post.lookup(&VarName::new("z")), ConstLat::Const(6));
    assert_eq!(*last.post.lookup(&VarName::new("x")), ConstLat::Top);
    assert_eq!(*last.post.lookup(&VarName::new("w")), ConstLat::Const(0));
}

#[test]
fn loop_is_solved() {
    let p = Prog::Prog(vec![
        ProgAtom::Assign(VarName::new("y"), Box::new(AExp::Mul(var("x"), var("x")))),
        ProgAtom::While(
            Box::new(BExp::LessEq(var("y"), num(10))),
            Box::new(Prog::Prog(vec![ProgAtom::Assign(
                VarName::new("y"),
                Box::new(AExp::Add(var("y"), num(1))),
            )])),
        ),
    ]);
    let cfg = ast_to_cfg(&p);
    assert_eq!(cfg.node_count(), 5);
    assert_eq!(*cfg.node(4), Node::Terminal);
    let solved = mfp::<ExpSetLat>(&cfg);
    assert_eq!(solved.annot(2).pre.set().len(), 2);
    assert!(solved.annot(2).pre.set().contains(&AExp::Mul(var("x"), var("x"))));
    let consts = mfp::<MultiConstLat>(&cfg);
    assert_eq!(*consts.annot(4).pre.lookup(&VarName::new("y")), ConstLat::Top);
}
