use vstd::prelude::*;
use vstd::hash_map::StringHashMap;
use crate::aexp::{AExp, AExpView};
use crate::ast::{AtomView, Prog, ProgAtom};
use crate::bexp::{BExp, BExpView};
use crate::common::{Name, VarName};

verus! {

/// The mathematical value of a memory: the variables that were written,
/// with their values. Every other variable holds 0.
pub type Memory = Map<Name, i32>;

/// The value that the memory `m` holds for the variable `x`.
pub open spec fn mem_lookup(m: Memory, x: Name) -> i32 {
    if m.contains_key(x) {
        m[x]
    } else {
        0
    }
}

/// The value of an arithmetic expression in the memory `m`. Sums and
/// products wrap around at the bounds of `i32`.
pub open spec fn aexp_value(a: AExpView, m: Memory) -> i32
    decreases a,
{
    match a {
        AExpView::Num(n) => n,
        AExpView::Var(x) => mem_lookup(m, x),
        AExpView::Add(l, r) => aexp_value(*l, m).wrapping_add(aexp_value(*r, m)),
        AExpView::Mul(l, r) => aexp_value(*l, m).wrapping_mul(aexp_value(*r, m)),
    }
}

/// The value of a boolean expression in the memory `m`.
pub open spec fn bexp_value(b: BExpView, m: Memory) -> bool
    decreases b,
{
    match b {
        BExpView::LessEq(l, r) => aexp_value(l, m) <= aexp_value(r, m),
        BExpView::Neg(c) => !bexp_value(*c, m),
        BExpView::And(l, r) => bexp_value(*l, m) && bexp_value(*r, m),
        BExpView::Or(l, r) => bexp_value(*l, m) || bexp_value(*r, m),
    }
}

/// The memory after the statement `a` ran from the memory `m`, or `None`
/// if that takes loops nested in time more than `fuel` deep: every turn of
/// a loop runs its body, and then the rest of the loop, with one unit of
/// fuel less.
pub open spec fn run_atom(a: AtomView, m: Memory, fuel: nat) -> Option<Memory>
    decreases fuel, a,
{
    match a {
        AtomView::Skip => Some(m),
        AtomView::Assign(x, e) => Some(m.insert(x, aexp_value(e, m))),
        AtomView::Cond(b, p, q) => if bexp_value(b, m) {
            run_prog(p, m, fuel)
        } else {
            run_prog(q, m, fuel)
        },
        AtomView::While(b, p) => if !bexp_value(b, m) {
            Some(m)
        } else if fuel == 0 {
            None
        } else {
            match run_prog(p, m, (fuel - 1) as nat) {
                None => None,
                Some(m1) => run_atom(a, m1, (fuel - 1) as nat),
            }
        },
    }
}

/// The memory after the statements of `p` ran one after the other from the
/// memory `m`, or `None` if one of them runs out of fuel.
pub open spec fn run_prog(p: Seq<AtomView>, m: Memory, fuel: nat) -> Option<Memory>
    decreases fuel, p,
{
    if p.len() == 0 {
        Some(m)
    } else {
        match run_atom(p[0], m, fuel) {
            None => None,
            Some(m1) => run_prog(p.drop_first(), m1, fuel),
        }
    }
}

/// The memory in which a program starts on the input `input`: the
/// variable `x` holds the input, every other variable 0.
pub open spec fn initial_memory(input: i32) -> Memory {
    Map::<Name, i32>::empty().insert("x"@, input)
}

/// The output of the program `p` on the input `input`: the value of the
/// variable `z` when `p` has run from the initial memory, or `None` if `p`
/// runs out of fuel.
pub open spec fn run(p: Seq<AtomView>, input: i32, fuel: nat) -> Option<i32> {
    match run_prog(p, initial_memory(input), fuel) {
        None => None,
        Some(m) => Some(mem_lookup(m, "z"@)),
    }
}

/// More fuel does not change where a statement ends: a run that ends
/// with the fuel `fuel` ends with the same memory with any fuel that is
/// not less.
pub proof fn lemma_fuel_atom(a: AtomView, m: Memory, fuel: nat, more: nat)
    requires
        run_atom(a, m, fuel) is Some,
        fuel <= more,
    ensures
        run_atom(a, m, more) == run_atom(a, m, fuel),
    decreases fuel, a,
{
    match a {
        AtomView::Skip => {},
        AtomView::Assign(_, _) => {},
        AtomView::Cond(b, p, q) => {
            if bexp_value(b, m) {
                lemma_fuel_prog(p, m, fuel, more);
            } else {
                lemma_fuel_prog(q, m, fuel, more);
            }
        },
        AtomView::While(b, p) => {
            if bexp_value(b, m) {
                lemma_fuel_prog(p, m, (fuel - 1) as nat, (more - 1) as nat);
                let m1 = run_prog(p, m, (fuel - 1) as nat)->Some_0;
                lemma_fuel_atom(a, m1, (fuel - 1) as nat, (more - 1) as nat);
            }
        },
    }
}

/// More fuel does not change where a program ends.
pub proof fn lemma_fuel_prog(p: Seq<AtomView>, m: Memory, fuel: nat, more: nat)
    requires
        run_prog(p, m, fuel) is Some,
        fuel <= more,
    ensures
        run_prog(p, m, more) == run_prog(p, m, fuel),
    decreases fuel, p,
{
    if p.len() > 0 {
        lemma_fuel_atom(p[0], m, fuel, more);
        let m1 = run_atom(p[0], m, fuel)->Some_0;
        lemma_fuel_prog(p.drop_first(), m1, fuel, more);
    }
}

/// More fuel does not change the output of a program.
pub proof fn lemma_fuel(p: Seq<AtomView>, input: i32, fuel: nat, more: nat)
    requires
        run(p, input, fuel) is Some,
        fuel <= more,
    ensures
        run(p, input, more) == run(p, input, fuel),
{
    lemma_fuel_prog(p, initial_memory(input), fuel, more);
}

/// A memory: each variable holds an `i32`, and 0 unless it was written.
pub struct MemConfig(StringHashMap<i32>);

impl View for MemConfig {
    type V = Memory;

    closed spec fn view(&self) -> Memory {
        self.0@
    }
}

impl MemConfig {
    /// The memory in which every variable holds 0.
    pub fn new() -> (r: MemConfig)
        ensures
            r@ == Map::<Name, i32>::empty(),
    {
        MemConfig(StringHashMap::new())
    }

    /// The value of the variable `x`.
    pub fn lookup(&self, x: &VarName) -> (r: i32)
        ensures
            r == mem_lookup(self@, x@),
    {
        match self.0.get(x.name()) {
            Some(v) => *v,
            None => 0,
        }
    }

    /// Writes `n` to the variable `x`.
    pub fn assign(&mut self, x: &VarName, n: i32)
        ensures
            final(self)@ == old(self)@.insert(x@, n),
    {
        let VarName(name) = x.clone();
        self.0.insert(name, n);
    }
}

/// Runs the program `p` on the input `input` and returns its output, the
/// final value of `z`; `None` if the run needs more than `fuel`.
pub fn eval(p: &Prog, input: i32, fuel: u64) -> (r: Option<i32>)
    ensures
        r == run(p@, input, fuel as nat),
{
    let mut mem = MemConfig::new();
    mem.assign(&VarName::new("x"), input);
    match eval_prog(p, mem, fuel) {
        None => None,
        Some(mem) => Some(mem.lookup(&VarName::new("z"))),
    }
}

/// Runs the program `p` from the memory `mem`; `None` if the run needs more
/// than `fuel`.
pub fn eval_prog(p: &Prog, mem: MemConfig, fuel: u64) -> (r: Option<MemConfig>)
    ensures
        match r {
            None => run_prog(p@, mem@, fuel as nat) is None,
            Some(m) => run_prog(p@, mem@, fuel as nat) == Some(m@),
        },
    decreases fuel, p,
{
    let Prog::Prog(ps) = p;
    let ghost start = mem@;
    let mut cur = mem;
    let mut i: usize = 0;
    proof {
        assert(p@.skip(0) =~= p@);
    }
    while i < ps.len()
        invariant
            i <= ps.len(),
            *p == Prog::Prog(*ps),
            start == mem@,
            run_prog(p@.skip(i as int), cur@, fuel as nat) == run_prog(p@, start, fuel as nat),
        decreases ps.len() - i,
    {
        proof {
            assert(p@.skip(i as int).drop_first() =~= p@.skip(i + 1));
            assert(p@.skip(i as int)[0] == ps[i as int]@);
        }
        match eval_prog_atom(&ps[i], cur, fuel) {
            None => {
                return None;
            },
            Some(m) => {
                cur = m;
            },
        }
        i += 1;
    }
    Some(cur)
}

/// Runs the statement `p` from the memory `mem`; `None` if the run needs
/// more than `fuel`.
pub fn eval_prog_atom(p: &ProgAtom, mem: MemConfig, fuel: u64) -> (r: Option<MemConfig>)
    ensures
        match r {
            None => run_atom(p@, mem@, fuel as nat) is None,
            Some(m) => run_atom(p@, mem@, fuel as nat) == Some(m@),
        },
    decreases fuel, p,
{
    let ghost start = mem@;
    let mut cur = mem;
    match p {
        ProgAtom::Skip => Some(cur),
        ProgAtom::Assign(x, a) => {
            let n = eval_aexp(a, &cur);
            cur.assign(x, n);
            Some(cur)
        },
        ProgAtom::Cond(b, p1, p2) => {
            if eval_bexp(b, &cur) {
                eval_prog(p1, cur, fuel)
            } else {
                eval_prog(p2, cur, fuel)
            }
        },
        ProgAtom::While(b, body) => {
            let mut left: u64 = fuel;
            while eval_bexp(b, &cur)
                invariant
                    left <= fuel,
                    *p == ProgAtom::While(*b, *body),
                    start == mem@,
                    run_atom(p@, cur@, left as nat) == run_atom(p@, start, fuel as nat),
                decreases left,
            {
                if left == 0 {
                    return None;
                }
                left = left - 1;
                match eval_prog(body, cur, left) {
                    None => {
                        return None;
                    },
                    Some(m) => {
                        cur = m;
                    },
                }
            }
            Some(cur)
        },
    }
}

/// The value of the arithmetic expression `a` in the memory `mem`.
pub fn eval_aexp(a: &AExp, mem: &MemConfig) -> (r: i32)
    ensures
        r == aexp_value(a@, mem@),
    decreases a,
{
    match a {
        AExp::Num(n) => *n,
        AExp::Var(x) => mem.lookup(x),
        AExp::Add(a1, a2) => eval_aexp(a1, mem).wrapping_add(eval_aexp(a2, mem)),
        AExp::Mul(a1, a2) => eval_aexp(a1, mem).wrapping_mul(eval_aexp(a2, mem)),
    }
}

/// The value of the boolean expression `a` in the memory `mem`.
pub fn eval_bexp(a: &BExp, mem: &MemConfig) -> (r: bool)
    ensures
        r == bexp_value(a@, mem@),
    decreases a,
{
    match a {
        BExp::LessEq(a1, a2) => eval_aexp(a1, mem) <= eval_aexp(a2, mem),
        BExp::Or(b1, b2) => eval_bexp(b1, mem) || eval_bexp(b2, mem),
        BExp::And(b1, b2) => eval_bexp(b1, mem) && eval_bexp(b2, mem),
        BExp::Neg(b1) => !eval_bexp(b1, mem),
    }
}

} // verus!
