use flanelly::aexp::AExp;
use flanelly::bexp::BExp;
use flanelly::cfg::{ast_to_cfg, Node};
use flanelly::common::VarName;
use flanelly::exp_set::ExpSet;
use flanelly::flow_analysis::avail_exp::ExpSetLat;
use flanelly::flow_analysis::common::{join, FlowSemantics, SemiLat};
use flanelly::flow_analysis::const_prop::{ConstLat, MultiConstLat};
use flanelly::flow_analysis::mfp::{iterate, mfp, step, MfpAnnot};
use flanelly::parser::parse;

fn var(s: &str) -> AExp {
    AExp::Var(VarName::new(s))
}

fn add(l: AExp, r: AExp) -> AExp {
    AExp::Add(Box::new(l), Box::new(r))
}

fn mul(l: AExp, r: AExp) -> AExp {
    AExp::Mul(Box::new(l), Box::new(r))
}

fn set_of(items: Vec<AExp>) -> ExpSetLat {
    let mut set = ExpSet::new();
    for e in items {
        set.insert(e);
    }
    ExpSetLat::new(set)
}

fn env(bindings: Vec<(&str, ConstLat)>, default: ConstLat) -> MultiConstLat {
    MultiConstLat::new(bindings.into_iter().map(|(x, v)| (VarName::new(x), v)).collect(), default)
}

const VALUES: [ConstLat; 5] =
    [ConstLat::Bot, ConstLat::Const(0), ConstLat::Const(1), ConstLat::Const(-7), ConstLat::Top];

#[test]
fn join_of_constants() {
    assert_eq!(ConstLat::Top.join_bin(&ConstLat::Bot), ConstLat::Top);
    assert_eq!(ConstLat::Bot.join_bin(&ConstLat::Const(3)), ConstLat::Const(3));
    assert_eq!(ConstLat::Const(3).join_bin(&ConstLat::Bot), ConstLat::Const(3));
    assert_eq!(ConstLat::Const(3).join_bin(&ConstLat::Const(3)), ConstLat::Const(3));
    assert_eq!(ConstLat::Const(3).join_bin(&ConstLat::Const(4)), ConstLat::Top);
    assert_eq!(ConstLat::Bot.join_bin(&ConstLat::Bot), ConstLat::Bot);
}

#[test]
fn join_of_constants_obeys_the_laws() {
    for a in VALUES {
        assert_eq!(a.join_bin(&a), a);
        for b in VALUES {
            assert_eq!(a.join_bin(&b), b.join_bin(&a));
            for c in VALUES {
                assert_eq!(a.join_bin(&b).join_bin(&c), a.join_bin(&b.join_bin(&c)));
            }
        }
    }
}

#[test]
fn binary_operation_on_constants() {
    let plus = |x: i32, y: i32| x.wrapping_add(y);
    assert_eq!(ConstLat::Const(2).eval_bin_op(plus, ConstLat::Const(3)), ConstLat::Const(5));
    assert_eq!(ConstLat::Top.eval_bin_op(plus, ConstLat::Bot), ConstLat::Top);
    assert_eq!(ConstLat::Const(2).eval_bin_op(plus, ConstLat::Top), ConstLat::Top);
    assert_eq!(ConstLat::Bot.eval_bin_op(plus, ConstLat::Const(3)), ConstLat::Bot);
    assert_eq!(ConstLat::Bot.eval_bin_op(plus, ConstLat::Bot), ConstLat::Bot);
}

#[test]
fn environments_look_up_and_insert() {
    let mut e = env(vec![("x", ConstLat::Top), ("y", ConstLat::Const(1))], ConstLat::Const(0));
    assert_eq!(*e.lookup(&VarName::new("x")), ConstLat::Top);
    assert_eq!(*e.lookup(&VarName::new("y")), ConstLat::Const(1));
    assert_eq!(*e.lookup(&VarName::new("w")), ConstLat::Const(0));
    assert!(e.contains_key(&VarName::new("y")));
    assert!(!e.contains_key(&VarName::new("w")));
    e.insert(VarName::new("y"), ConstLat::Const(2));
    e.insert(VarName::new("w"), ConstLat::Bot);
    assert_eq!(*e.lookup(&VarName::new("y")), ConstLat::Const(2));
    assert_eq!(*e.lookup(&VarName::new("w")), ConstLat::Bot);
    assert_eq!(e.bindings().len(), 3);
    assert_eq!(e.to_string(), "<x = tt, y = 2, w = bb, _ = 0>");
    let later = env(vec![("x", ConstLat::Const(1)), ("x", ConstLat::Const(2))], ConstLat::Bot);
    assert_eq!(*later.lookup(&VarName::new("x")), ConstLat::Const(2));
}

#[test]
fn environments_are_equal_by_their_bindings() {
    let a = env(vec![("x", ConstLat::Top), ("y", ConstLat::Const(1))], ConstLat::Const(0));
    let b = env(vec![("y", ConstLat::Const(1)), ("x", ConstLat::Top)], ConstLat::Const(0));
    let c = env(vec![("x", ConstLat::Top)], ConstLat::Const(0));
    let d = env(vec![("x", ConstLat::Top), ("y", ConstLat::Const(1))], ConstLat::Bot);
    let e = env(vec![("x", ConstLat::Top), ("y", ConstLat::Const(0))], ConstLat::Const(0));
    assert!(a == b);
    assert!(a != c);
    assert!(c != a);
    assert!(a != d);
    assert!(a != e);
    assert!(a.clone() == a);
}

#[test]
fn join_of_environments_is_pointwise() {
    let a = env(vec![("x", ConstLat::Const(1)), ("y", ConstLat::Const(1))], ConstLat::Const(0));
    let b = env(vec![("y", ConstLat::Const(2)), ("z", ConstLat::Const(0))], ConstLat::Bot);
    let j = a.join_bin(&b);
    assert_eq!(*j.lookup(&VarName::new("x")), ConstLat::Const(1));
    assert_eq!(*j.lookup(&VarName::new("y")), ConstLat::Top);
    assert_eq!(*j.lookup(&VarName::new("z")), ConstLat::Const(0));
    assert_eq!(*j.lookup(&VarName::new("w")), ConstLat::Const(0));
    assert_eq!(j.bindings().len(), 3);
    let c = env(vec![("z", ConstLat::Const(5))], ConstLat::Const(1));
    let k = a.join_bin(&c);
    assert_eq!(*k.lookup(&VarName::new("z")), ConstLat::Top);
    assert_eq!(k.default_value(), ConstLat::Top);
}

#[test]
fn join_of_environments_obeys_the_laws() {
    let envs = [
        env(vec![], ConstLat::Bot),
        env(vec![("x", ConstLat::Top)], ConstLat::Const(0)),
        env(vec![("x", ConstLat::Const(1)), ("y", ConstLat::Const(2))], ConstLat::Const(0)),
        env(vec![("y", ConstLat::Const(3))], ConstLat::Top),
    ];
    for a in &envs {
        assert!(a.join_bin(a) == *a);
        for b in &envs {
            assert!(a.join_bin(b) == b.join_bin(a));
            for c in &envs {
                assert!(a.join_bin(b).join_bin(c) == a.join_bin(&b.join_bin(c)));
            }
        }
    }
    assert!(join(&vec![&envs[1], &envs[2], &envs[3]]) == envs[1].join_bin(&envs[2]).join_bin(&envs[3]));
    assert!(join(&vec![&envs[2]]) == envs[2]);
}

#[test]
fn start_values_of_constant_propagation() {
    let start = MultiConstLat::init_start();
    assert_eq!(*start.lookup(&VarName::new("x")), ConstLat::Top);
    assert_eq!(*start.lookup(&VarName::new("z")), ConstLat::Const(0));
    assert_eq!(start.default_value(), ConstLat::Const(0));
    let bottom = MultiConstLat::init(&vec![Node::Init, Node::Skip]);
    assert_eq!(bottom.bindings().len(), 0);
    assert_eq!(bottom.default_value(), ConstLat::Bot);
}

#[test]
fn transfer_of_constant_propagation() {
    let e = env(vec![("x", ConstLat::Top), ("y", ConstLat::Const(2))], ConstLat::Const(0));
    let assign = Node::Assign(VarName::new("z"), Box::new(mul(var("y"), AExp::Num(3))));
    let after = MultiConstLat::eval_transfer_function(&assign, &e);
    assert_eq!(*after.lookup(&VarName::new("z")), ConstLat::Const(6));
    assert_eq!(*after.lookup(&VarName::new("y")), ConstLat::Const(2));
    let unknown = Node::Assign(VarName::new("y"), Box::new(add(var("x"), AExp::Num(1))));
    assert_eq!(*MultiConstLat::eval_transfer_function(&unknown, &e).lookup(&VarName::new("y")), ConstLat::Top);
    let guard = Node::Branch(Box::new(BExp::LessEq(Box::new(var("x")), Box::new(AExp::Num(1)))));
    for n in [Node::Init, Node::Terminal, Node::Skip, guard] {
        assert!(MultiConstLat::eval_transfer_function(&n, &e) == e);
    }
}

#[test]
fn transfer_of_constant_propagation_is_monotone() {
    let low = env(vec![("y", ConstLat::Const(2))], ConstLat::Bot);
    let high = env(vec![("y", ConstLat::Top), ("x", ConstLat::Const(1))], ConstLat::Const(0));
    assert!(low.join_bin(&high) == high);
    let assign = Node::Assign(VarName::new("z"), Box::new(add(var("y"), var("x"))));
    let a = MultiConstLat::eval_transfer_function(&assign, &low);
    let b = MultiConstLat::eval_transfer_function(&assign, &high);
    assert_eq!(*a.lookup(&VarName::new("z")), ConstLat::Bot);
    assert_eq!(*b.lookup(&VarName::new("z")), ConstLat::Top);
    assert!(a.join_bin(&b) == b);
}

#[test]
fn subexpressions() {
    let e = add(mul(var("x"), var("x")), AExp::Num(1));
    let subs = e.sub_aexps();
    assert_eq!(subs.len(), 4);
    for s in [var("x"), mul(var("x"), var("x")), AExp::Num(1), e.clone()] {
        assert!(subs.contains(&s));
    }
    assert!(!subs.contains(&var("y")));
    assert!(e.contains_var(&VarName::new("x")));
    assert!(!e.contains_var(&VarName::new("y")));
    assert!(!add(AExp::Num(1), var("x")).sub_aexps().contains(&add(var("x"), AExp::Num(1))));
    let b = BExp::Or(
        Box::new(BExp::Neg(Box::new(BExp::LessEq(Box::new(var("a")), Box::new(AExp::Num(2)))))),
        Box::new(BExp::And(
            Box::new(BExp::LessEq(Box::new(var("a")), Box::new(var("b")))),
            Box::new(BExp::LessEq(Box::new(AExp::Num(2)), Box::new(add(var("b"), var("c"))))),
        )),
    );
    let subs = b.sub_aexps();
    assert_eq!(subs.len(), 5);
    assert!(subs.contains(&add(var("b"), var("c"))));
    assert!(subs.contains(&var("c")));
}

#[test]
fn sets_of_expressions() {
    let mut s = set_of(vec![var("x"), add(var("x"), var("y")), AExp::Num(1), var("x")]);
    assert_eq!(s.set().len(), 3);
    assert_eq!(s.to_string(), "{x, x + y, 1}");
    s.clear_var(&VarName::new("y"));
    assert_eq!(s.to_string(), "{x, 1}");
    s.extend(mul(var("z"), AExp::Num(1)).sub_aexps());
    assert_eq!(s.to_string(), "{x, 1, z, z*1}");
    assert!(s == set_of(vec![mul(var("z"), AExp::Num(1)), var("z"), AExp::Num(1), var("x")]));
    assert!(s != set_of(vec![var("z"), AExp::Num(1), var("x")]));
    assert!(s.clone() == s);
}

#[test]
fn join_of_sets_is_the_intersection_and_obeys_the_laws() {
    let sets = [
        set_of(vec![]),
        set_of(vec![var("x"), var("y"), AExp::Num(1)]),
        set_of(vec![var("y"), AExp::Num(1), AExp::Num(2)]),
        set_of(vec![AExp::Num(1), var("x")]),
    ];
    assert!(sets[1].join_bin(&sets[2]) == set_of(vec![AExp::Num(1), var("y")]));
    for a in &sets {
        assert!(a.join_bin(a) == *a);
        for b in &sets {
            assert!(a.join_bin(b) == b.join_bin(a));
            for c in &sets {
                assert!(a.join_bin(b).join_bin(c) == a.join_bin(&b.join_bin(c)));
            }
        }
    }
    assert_eq!(ExpSetLat::init(&vec![]).set().len(), 0);
    assert_eq!(ExpSetLat::init_start().set().len(), 0);
    let guard = Node::Branch(Box::new(BExp::LessEq(Box::new(var("y")), Box::new(AExp::Num(10)))));
    let assign = Node::Assign(VarName::new("y"), Box::new(mul(var("x"), var("x"))));
    let all = ExpSetLat::init(&vec![Node::Init, assign, guard, Node::Skip, Node::Terminal]);
    assert!(all == set_of(vec![var("x"), mul(var("x"), var("x")), var("y"), AExp::Num(10)]));
}

#[test]
fn transfer_of_available_expressions() {
    let s = set_of(vec![var("a"), add(var("x"), AExp::Num(1))]);
    let assign = Node::Assign(VarName::new("x"), Box::new(add(var("x"), var("b"))));
    let after = ExpSetLat::eval_transfer_function(&assign, &s);
    assert!(after == set_of(vec![var("a"), var("b")]));
    let guard = Node::Branch(Box::new(BExp::LessEq(Box::new(var("x")), Box::new(AExp::Num(3)))));
    let after = ExpSetLat::eval_transfer_function(&guard, &s);
    assert!(after == set_of(vec![var("a"), add(var("x"), AExp::Num(1)), var("x"), AExp::Num(3)]));
    for n in [Node::Init, Node::Terminal, Node::Skip] {
        assert!(ExpSetLat::eval_transfer_function(&n, &s) == s);
    }
    // monotone: a smaller set gives a smaller set
    let small = set_of(vec![var("a")]);
    let a = ExpSetLat::eval_transfer_function(&assign, &small);
    let b = ExpSetLat::eval_transfer_function(&assign, &s);
    assert!(a.join_bin(&b) == a);
}

#[test]
fn solving_again_changes_nothing() {
    let p = parse("y := x * x; while y <= 10 do y := y + 1; if y <= 5 then z := y else skip end end").unwrap();
    let raw = ast_to_cfg(&p);
    let mut solved = mfp::<MultiConstLat>(&raw);
    let before: Vec<MfpAnnot<MultiConstLat>> = (0..solved.node_count()).map(|n| solved.annot(n).clone()).collect();
    for n in 1..solved.node_count() {
        assert!(!step(&mut solved, n));
    }
    iterate(&mut solved);
    let after: Vec<MfpAnnot<MultiConstLat>> = (0..solved.node_count()).map(|n| solved.annot(n).clone()).collect();
    assert!(before == after);
    let again = mfp::<MultiConstLat>(&raw);
    for n in 0..solved.node_count() {
        assert!(again.annot(n).pre == solved.annot(n).pre);
        assert!(again.annot(n).post == solved.annot(n).post);
    }
}

#[test]
fn solving_the_solved_graph_again_gives_the_same() {
    let p = parse("y := x * x; while y <= 10 do y := y + 1; if y <= 5 then z := y * x else skip end end").unwrap();
    let raw = ast_to_cfg(&p);
    let first = mfp::<ExpSetLat>(&raw);
    let again = mfp::<ExpSetLat>(&first.map(|_| flanelly::cfg::RawAnnot {}));
    assert!(first == again);
    let consts = mfp::<MultiConstLat>(&raw);
    let consts_again = mfp::<MultiConstLat>(&consts.map(|_| flanelly::cfg::RawAnnot {}));
    assert!(consts == consts_again);
    let mut stepped = mfp::<ExpSetLat>(&raw);
    for n in 1..stepped.node_count() {
        assert!(!step(&mut stepped, n));
    }
    assert!(stepped == first);
}

#[test]
fn available_expressions_are_the_greatest_solution() {
    // the empty set at the head of this loop solves the equations too; the
    // solver gives the greater set
    let p = parse("y := x * x; while y <= 10 do y := y + 1 end").unwrap();
    let solved = mfp::<ExpSetLat>(&ast_to_cfg(&p));
    assert!(solved.annot(2).pre == set_of(vec![var("x"), mul(var("x"), var("x"))]));
    assert!(solved.annot(3).post == set_of(vec![var("x"), mul(var("x"), var("x")), AExp::Num(10), AExp::Num(1)]));
    for n in 1..solved.node_count() {
        let preds = solved.predecessors(n).unwrap().into_vec();
        let posts: Vec<&ExpSetLat> = preds.iter().map(|p| &solved.annot(*p).post).collect();
        assert!(join(&posts) == solved.annot(n).pre);
        assert!(ExpSetLat::eval_transfer_function(solved.node(n), &solved.annot(n).pre) == solved.annot(n).post);
    }
}

#[test]
fn fixed_point_equations_hold() {
    let p = parse("y := 1; while x <= 3 do y := y * 2; x := x + 1 end; z := y").unwrap();
    let solved = mfp::<MultiConstLat>(&ast_to_cfg(&p));
    assert!(solved.annot(0).pre == MultiConstLat::init_start());
    assert!(solved.annot(0).post == MultiConstLat::init_start());
    for n in 1..solved.node_count() {
        let preds = solved.predecessors(n).unwrap().into_vec();
        let posts: Vec<&MultiConstLat> = preds.iter().map(|p| &solved.annot(*p).post).collect();
        assert!(join(&posts) == solved.annot(n).pre);
        assert!(MultiConstLat::eval_transfer_function(solved.node(n), &solved.annot(n).pre) == solved.annot(n).post);
    }
    let head = solved.annot(2);
    assert_eq!(*head.pre.lookup(&VarName::new("y")), ConstLat::Top);
    assert_eq!(*head.pre.lookup(&VarName::new("z")), ConstLat::Const(0));
}

#[test]
fn annotation_keeps_its_values() {
    let a = MfpAnnot::new(ConstLat::Const(1), ConstLat::Top);
    assert_eq!(a.pre, ConstLat::Const(1));
    assert_eq!(a.post, ConstLat::Top);
    assert_eq!(a.to_string(), "pre: 1\npost: tt");
}
