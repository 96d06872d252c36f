use flanelly::aexp::AExp;
use flanelly::ast::{Prog, ProgAtom};
use flanelly::bexp::BExp;
use flanelly::common::VarName;
use flanelly::interpreter::{eval, eval_aexp, eval_bexp, eval_prog, eval_prog_atom, MemConfig};

fn var(s: &str) -> Box<AExp> {
    Box::new(AExp::Var(VarName::new(s)))
}

fn num(n: i32) -> Box<AExp> {
    Box::new(AExp::Num(n))
}

#[test]
fn memory_defaults_to_zero() {
    let mut mem = MemConfig::new();
    assert_eq!(mem.lookup(&VarName::new("x")), 0);
    mem.assign(&VarName::new("x"), 5);
    mem.assign(&VarName::new("y"), -1);
    mem.assign(&VarName::new("x"), 6);
    assert_eq!(mem.lookup(&VarName::new("x")), 6);
    assert_eq!(mem.lookup(&VarName::new("y")), -1);
    assert_eq!(mem.lookup(&VarName::new("z")), 0);
}

#[test]
fn expressions_are_evaluated() {
    let mut mem = MemConfig::new();
    mem.assign(&VarName::new("x"), 4);
    let e = AExp::Add(Box::new(AExp::Mul(var("x"), num(3))), var("y"));
    assert_eq!(eval_aexp(&e, &mem), 12);
    assert_eq!(eval_aexp(&AExp::Mul(num(i32::MAX), num(2)), &mem), -2);
    let le = BExp::LessEq(var("x"), num(4));
    let gt = BExp::Neg(Box::new(BExp::LessEq(var("x"), num(3))));
    let no = BExp::LessEq(var("x"), num(3));
    assert!(eval_bexp(&le, &mem));
    assert!(eval_bexp(&gt, &mem));
    assert!(!eval_bexp(&no, &mem));
    assert!(!eval_bexp(&BExp::And(Box::new(le.clone()), Box::new(no.clone())), &mem));
    assert!(eval_bexp(&BExp::Or(Box::new(no.clone()), Box::new(le.clone())), &mem));
    assert!(eval_bexp(&BExp::And(Box::new(le), Box::new(gt)), &mem));
}

#[test]
fn statements_are_run() {
    let assign = ProgAtom::Assign(VarName::new("y"), Box::new(AExp::Add(var("y"), num(2))));
    let mem = eval_prog_atom(&assign, MemConfig::new(), 0).unwrap();
    assert_eq!(mem.lookup(&VarName::new("y")), 2);
    let twice = Prog::Prog(vec![
        ProgAtom::Assign(VarName::new("y"), Box::new(AExp::Add(var("y"), num(2)))),
        ProgAtom::Skip,
        ProgAtom::Assign(VarName::new("y"), Box::new(AExp::Add(var("y"), num(2)))),
    ]);
    let mem = eval_prog(&twice, mem, 0).unwrap();
    assert_eq!(mem.lookup(&VarName::new("y")), 6);
    let cond = ProgAtom::Cond(
        Box::new(BExp::LessEq(var("y"), num(5))),
        Box::new(Prog::Prog(vec![ProgAtom::Assign(VarName::new("z"), num(1))])),
        Box::new(Prog::Prog(vec![ProgAtom::Assign(VarName::new("z"), num(2))])),
    );
    let mem = eval_prog_atom(&cond, mem, 0).unwrap();
    assert_eq!(mem.lookup(&VarName::new("z")), 2);
    let countdown = ProgAtom::While(
        Box::new(BExp::LessEq(num(1), var("y"))),
        Box::new(Prog::Prog(vec![ProgAtom::Assign(
            VarName::new("y"),
            Box::new(AExp::Add(var("y"), num(-1))),
        )])),
    );
    assert!(eval_prog_atom(&countdown, MemConfig::new(), 0).is_some());
    let mut six = MemConfig::new();
    six.assign(&VarName::new("y"), 6);
    assert!(eval_prog_atom(&countdown, six, 5).is_none());
    let mut six = MemConfig::new();
    six.assign(&VarName::new("y"), 6);
    assert_eq!(eval_prog_atom(&countdown, six, 6).unwrap().lookup(&VarName::new("y")), 0);
}

#[test]
fn input_is_x_and_output_is_z() {
    let p = Prog::Prog(vec![ProgAtom::Assign(VarName::new("z"), Box::new(AExp::Mul(var("x"), var("x"))))]);
    assert_eq!(eval(&p, -4, 0), Some(16));
    assert_eq!(eval(&Prog::Prog(vec![]), 9, 0), Some(0));
}
