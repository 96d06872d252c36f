use flanelly::ast::{Prog, ProgAtom};
use flanelly::bexp::BExp;
use flanelly::aexp::AExp;
use flanelly::cfg::{ast_to_cfg, fits_cfg, try_ast_to_cfg, AnnotNode, Cfg, Edge, Node, RawAnnot};
use flanelly::common::VarName;
use flanelly::parser::parse;
use petgraph::graph::Graph;

fn graph_of(text: &str) -> Cfg<RawAnnot> {
    ast_to_cfg(&parse(text).unwrap())
}

fn edges(cfg: &Cfg<RawAnnot>) -> Vec<(usize, usize, Edge)> {
    (0..cfg.edge_count()).map(|e| cfg.edge(e)).collect()
}

#[test]
fn empty_program_is_only_the_entry() {
    let cfg = ast_to_cfg(&Prog::Prog(vec![]));
    assert_eq!(cfg.node_count(), 1);
    assert_eq!(cfg.edge_count(), 0);
    assert_eq!(cfg.init(), 0);
    assert_eq!(*cfg.node(0), Node::Init);
}

#[test]
fn conditional_with_empty_branches_gets_a_terminal() {
    let guard = BExp::LessEq(Box::new(AExp::Num(1)), Box::new(AExp::Num(2)));
    let p = Prog::Prog(vec![ProgAtom::Cond(
        Box::new(guard),
        Box::new(Prog::Prog(vec![])),
        Box::new(Prog::Prog(vec![])),
    )]);
    let cfg = ast_to_cfg(&p);
    assert_eq!(cfg.node_count(), 3);
    assert_eq!(*cfg.node(2), Node::Terminal);
    assert_eq!(edges(&cfg), vec![(0, 1, Edge::Plain), (1, 2, Edge::True), (1, 2, Edge::False)]);
}

#[test]
fn nodes_follow_the_statements_in_order() {
    let cfg = graph_of("a := 1; if a <= 1 then while a <= 2 do skip end else b := 2 end; c := 3");
    let nodes: Vec<String> = (0..cfg.node_count()).map(|n| cfg.node(n).to_string()).collect();
    assert_eq!(nodes, vec!["init", "a := 1", "a <= 1", "a <= 2", "skip", "b := 2", "c := 3"]);
    assert_eq!(
        edges(&cfg),
        vec![
            (0, 1, Edge::Plain),
            (1, 2, Edge::Plain),
            (2, 3, Edge::True),
            (3, 4, Edge::True),
            (4, 3, Edge::Plain),
            (2, 5, Edge::False),
            (3, 6, Edge::False),
            (5, 6, Edge::Plain),
        ]
    );
}

#[test]
fn every_guard_has_one_edge_for_each_outcome() {
    let cfg = graph_of("while x <= 1 do if y <= 2 then skip else while z <= 3 do skip end end end; skip");
    let all = edges(&cfg);
    for n in 0..cfg.node_count() {
        let count = |l: Edge| all.iter().filter(|(a, _, e)| *a == n && *e == l).count();
        match cfg.node(n) {
            Node::Branch(_) => {
                assert_eq!(count(Edge::True), 1);
                assert_eq!(count(Edge::False), 1);
                assert_eq!(count(Edge::Plain), 0);
            }
            Node::Terminal => {
                assert_eq!(count(Edge::True) + count(Edge::False) + count(Edge::Plain), 0);
            }
            _ => {
                assert_eq!(count(Edge::True), 0);
                assert_eq!(count(Edge::False), 0);
                assert!(count(Edge::Plain) <= 1);
            }
        }
        if n != cfg.init() {
            assert!(all.iter().any(|(_, b, _)| *b == n));
        } else {
            assert!(all.iter().all(|(_, b, _)| *b != n));
        }
    }
    assert_eq!((0..cfg.node_count()).filter(|n| *cfg.node(*n) == Node::Init).count(), 1);
}

#[test]
fn neighbours_come_newest_edge_first() {
    let cfg = graph_of("y := x * x; while y <= 10 do y := y + 1 end");
    assert_eq!(cfg.predecessors(0), None);
    assert_eq!(cfg.predecessors(2).unwrap().into_vec(), vec![3, 1]);
    assert_eq!(cfg.predecessors(4).unwrap().into_vec(), vec![2]);
    assert_eq!(cfg.successors(2), vec![4, 3]);
    assert_eq!(cfg.successors(4), Vec::<usize>::new());
    assert_eq!(cfg.predecessors(5), None);
    assert_eq!(cfg.successors(5), Vec::<usize>::new());
    assert_eq!(cfg.predecessors(usize::MAX), None);
    assert_eq!(cfg.successors(usize::MAX), Vec::<usize>::new());
}

#[test]
fn map_keeps_the_graph_and_maps_the_annotations() {
    let cfg = graph_of("skip; skip");
    let mapped = cfg.map(|_| 5u8);
    assert_eq!(mapped.node_count(), 3);
    assert_eq!(mapped.edge_count(), 2);
    assert_eq!(mapped.init(), cfg.init());
    for n in 0..mapped.node_count() {
        assert_eq!(mapped.node(n), cfg.node(n));
        assert_eq!(*mapped.annot(n), 5);
    }
    assert_eq!(mapped.edge(1), (1, 2, Edge::Plain));
}

#[test]
fn graphs_are_built_by_hand() {
    let mut g = Graph::new();
    let a = g.add_node(Node::Init);
    let b = g.add_node(Node::Skip);
    g.add_edge(a, b, Edge::Plain);
    let mut cfg = Cfg::new(g.clone(), vec![1, 2], 0).unwrap();
    assert_eq!(cfg.node_count(), 2);
    assert_eq!(*cfg.annot(1), 2);
    let c = cfg.add_node(Node::Terminal, 3);
    assert_eq!(c, 2);
    cfg.add_edge(1, 2, Edge::True);
    cfg.set_annot(0, 7);
    assert_eq!(*cfg.annot(0), 7);
    assert_eq!(cfg.edge(1), (1, 2, Edge::True));
    assert!(Cfg::new(g.clone(), vec![1], 0).is_none());
    assert!(Cfg::new(g, vec![1, 2], 2).is_none());
}

#[test]
fn annotated_node_keeps_its_parts() {
    let n = AnnotNode::new(Node::Assign(VarName::new("x"), Box::new(AExp::Num(1))), RawAnnot {});
    assert_eq!(n.node, Node::Assign(VarName::new("x"), Box::new(AExp::Num(1))));
    assert_eq!(n.annot, RawAnnot {});
    assert_eq!(n.to_string(), "x := 1");
}

#[test]
fn small_programs_fit() {
    let p = parse("while x <= 1 do skip end").unwrap();
    assert!(fits_cfg(&p));
    assert!(try_ast_to_cfg(&p).is_some());
}

#[test]
fn graphs_are_equal_whatever_the_indices_are() {
    let a = graph_of("x := 1; while x <= 3 do x := x + 1 end");
    let b = graph_of("x := 1; while x <= 3 do x := x + 1 end");
    let c = graph_of("x := 1; while x <= 3 do x := x + 2 end");
    let d = graph_of("x := 1; while x <= 3 do x := x + 1 end; skip");
    assert!(a == b);
    assert!(a != c);
    assert!(a != d);
    assert!(d != a);
    let mut g = Graph::new();
    let skip = g.add_node(Node::Skip);
    let init = g.add_node(Node::Init);
    g.add_edge(init, skip, Edge::Plain);
    let swapped = Cfg::new(g, vec![RawAnnot {}, RawAnnot {}], 1).unwrap();
    assert!(swapped == graph_of("skip"));
    let mut h = Graph::new();
    let init = h.add_node(Node::Init);
    let skip = h.add_node(Node::Skip);
    h.add_edge(skip, init, Edge::Plain);
    let reversed = Cfg::new(h, vec![RawAnnot {}, RawAnnot {}], 0).unwrap();
    assert!(reversed != graph_of("skip"));
}

fn has_terminal(text: &str) -> bool {
    let cfg = graph_of(text);
    (0..cfg.node_count()).any(|n| *cfg.node(n) == Node::Terminal)
}

#[test]
fn terminal_stands_where_a_guard_would_lead_nowhere() {
    assert!(!has_terminal("skip"));
    assert!(!has_terminal("while x <= 1 do skip end; skip"));
    assert!(!has_terminal("if x <= 0 then z := 1 else z := 2 end"));
    assert!(has_terminal("skip; while x <= 1 do skip end"));
    assert!(has_terminal("if x <= 0 then while x <= 1 do skip end else z := 2 end"));
    assert!(has_terminal("if x <= 0 then z := 1 else skip; while x <= 1 do skip end end"));
    assert!(!has_terminal("if x <= 0 then while x <= 1 do skip end; skip else z := 2 end"));
    let guard = || Box::new(BExp::LessEq(Box::new(AExp::Num(1)), Box::new(AExp::Num(2))));
    let empty_branch = Prog::Prog(vec![
        ProgAtom::Skip,
        ProgAtom::Cond(guard(), Box::new(Prog::Prog(vec![ProgAtom::Skip])), Box::new(Prog::Prog(vec![]))),
    ]);
    let cfg = ast_to_cfg(&empty_branch);
    assert_eq!(*cfg.node(cfg.node_count() - 1), Node::Terminal);
    // the plain end of the first branch gets no edge; the guard's own end does
    let into: Vec<_> = edges(&cfg).into_iter().filter(|(_, b, _)| *b == cfg.node_count() - 1).collect();
    assert_eq!(into, vec![(2, 4, Edge::False)]);
    let cfg = graph_of("if a <= 1 then while b <= 2 do skip end else while c <= 3 do skip end end");
    let last = cfg.node_count() - 1;
    let into: Vec<_> = edges(&cfg).into_iter().filter(|(_, b, _)| *b == last).collect();
    assert_eq!(into, vec![(2, last, Edge::False), (4, last, Edge::False)]);
    assert_eq!((0..cfg.node_count()).filter(|n| *cfg.node(*n) == Node::Terminal).count(), 1);
}

#[test]
fn every_node_is_reached_from_the_entry() {
    let cfg = graph_of(
        "a := 1; while a <= 9 do if a <= 5 then while b <= a do b := b + 1 end else skip end; a := a + 1 end",
    );
    let mut seen = vec![false; cfg.node_count()];
    let mut todo = vec![cfg.init()];
    seen[cfg.init()] = true;
    while let Some(n) = todo.pop() {
        for m in cfg.successors(n) {
            if !seen[m] {
                seen[m] = true;
                todo.push(m);
            }
        }
    }
    assert!(seen.iter().all(|s| *s));
    assert_eq!(*cfg.node(cfg.node_count() - 1), Node::Terminal);
}
