use vstd::prelude::*;
use vstd::std_specs::cmp::PartialEqSpecImpl;
use crate::aexp::{AExp, AExpView};
use crate::cfg::{Node, NodeView};
use crate::common::{Name, VarName};
use crate::flow_analysis::common::{FlowSemantics, SemiLat};
use crate::text::{Show, int_text, show_int};
use vstd::string::StringExecFns;

verus! {

/// What is known of one variable: nothing yet (`Bot`), that it holds one
/// value (`Const`), or that it may hold several (`Top`).
///
/// The order is `Bot <= Const(n) <= Top` for every `n`; two different
/// constants are not comparable.
#[derive(Debug, Clone, Copy, PartialEq, Eq, Hash, Structural)]
pub enum ConstLat {
    Top,
    Const(i32),
    Bot,
}

/// The join of two values: the least value above both.
pub open spec fn join_const(a: ConstLat, b: ConstLat) -> ConstLat {
    match (a, b) {
        (ConstLat::Top, _) => ConstLat::Top,
        (_, ConstLat::Top) => ConstLat::Top,
        (ConstLat::Bot, y) => y,
        (x, ConstLat::Bot) => x,
        (x, y) => if x == y {
            x
        } else {
            ConstLat::Top
        },
    }
}

/// The order of the values.
pub open spec fn le_const(a: ConstLat, b: ConstLat) -> bool {
    a == b || a is Bot || b is Top
}

/// The height of a value in the order.
pub open spec fn rank_const(a: ConstLat) -> nat {
    match a {
        ConstLat::Bot => 0,
        ConstLat::Const(_) => 1,
        ConstLat::Top => 2,
    }
}

/// The value of a binary operation `op` on two values: the operation's
/// result on two constants, `Top` if one side is `Top`, else `Bot`.
pub open spec fn bin_op_const(a: ConstLat, op: spec_fn(i32, i32) -> i32, b: ConstLat) -> ConstLat {
    match (a, b) {
        (ConstLat::Const(u), ConstLat::Const(v)) => ConstLat::Const(op(u, v)),
        (ConstLat::Top, _) => ConstLat::Top,
        (_, ConstLat::Top) => ConstLat::Top,
        _ => ConstLat::Bot,
    }
}

impl View for ConstLat {
    type V = ConstLat;

    open spec fn view(&self) -> ConstLat {
        *self
    }
}

impl SemiLat for ConstLat {
    open spec fn lat_wf(&self) -> bool {
        true
    }

    open spec fn join_spec(a: ConstLat, b: ConstLat) -> ConstLat {
        join_const(a, b)
    }

    open spec fn le(a: ConstLat, b: ConstLat) -> bool {
        le_const(a, b)
    }

    fn join_bin(&self, other: &ConstLat) -> (r: ConstLat) {
        match (*self, *other) {
            (ConstLat::Top, _) => ConstLat::Top,
            (_, ConstLat::Top) => ConstLat::Top,
            (ConstLat::Bot, y) => y,
            (x, ConstLat::Bot) => x,
            (x, y) => if x == y {
                x
            } else {
                ConstLat::Top
            },
        }
    }

    proof fn lemma_join_idempotent(a: ConstLat) {
    }

    proof fn lemma_join_commutative(a: ConstLat, b: ConstLat) {
    }

    proof fn lemma_join_associative(a: ConstLat, b: ConstLat, c: ConstLat) {
    }

    proof fn lemma_le_preorder(a: ConstLat, b: ConstLat, c: ConstLat) {
    }

    proof fn lemma_le_antisymmetric(a: ConstLat, b: ConstLat) {
    }

    proof fn lemma_join_monotone(a: ConstLat, b: ConstLat, c: ConstLat, d: ConstLat) {
    }
}

impl ConstLat {
    /// The value of the binary operation `f` on two values.
    pub fn eval_bin_op<F>(self, f: F, other: ConstLat) -> (r: ConstLat) where F: Fn(i32, i32) -> i32
        requires
            forall|u: i32, v: i32| call_requires(f, (u, v)),
        ensures
            match (self, other) {
                (ConstLat::Const(u), ConstLat::Const(v)) => r is Const && call_ensures(f, (u, v), r->Const_0),
                (ConstLat::Top, _) => r is Top,
                (_, ConstLat::Top) => r is Top,
                _ => r is Bot,
            },
    {
        match (self, other) {
            (ConstLat::Const(v1), ConstLat::Const(v2)) => ConstLat::Const(f(v1, v2)),
            (ConstLat::Top, _) => ConstLat::Top,
            (_, ConstLat::Top) => ConstLat::Top,
            _ => ConstLat::Bot,
        }
    }
}

/// The mathematical value of an environment: what is known of the
/// variables in `map`, and `default` for every other variable.
pub struct EnvView {
    pub map: Map<Name, ConstLat>,
    pub default: ConstLat,
}

impl EnvView {
    /// What the environment knows of the variable `x`.
    pub open spec fn lookup(self, x: Name) -> ConstLat {
        if self.map.contains_key(x) {
            self.map[x]
        } else {
            self.default
        }
    }

    /// The abstract value of an arithmetic expression. Sums and products of
    /// constants wrap around at the bounds of `i32`.
    pub open spec fn eval(self, a: AExpView) -> ConstLat
        decreases a,
    {
        match a {
            AExpView::Num(n) => ConstLat::Const(n),
            AExpView::Var(x) => self.lookup(x),
            AExpView::Add(l, r) => bin_op_const(self.eval(*l), |u: i32, v: i32| u.wrapping_add(v), self.eval(*r)),
            AExpView::Mul(l, r) => bin_op_const(self.eval(*l), |u: i32, v: i32| u.wrapping_mul(v), self.eval(*r)),
        }
    }

    /// The environment with `x` set to `v`.
    pub open spec fn set(self, x: Name, v: ConstLat) -> EnvView {
        EnvView { map: self.map.insert(x, v), default: self.default }
    }
}

/// The join of two environments: variable by variable over the variables
/// of either map, and of the defaults.
pub open spec fn join_env(a: EnvView, b: EnvView) -> EnvView {
    EnvView {
        map: Map::new(
            |k: Name| a.map.contains_key(k) || b.map.contains_key(k),
            |k: Name| join_const(a.lookup(k), b.lookup(k)),
        ),
        default: join_const(a.default, b.default),
    }
}

/// The effect of a node on an environment: an assignment sets its variable
/// to the abstract value of its expression, any other node changes nothing.
pub open spec fn transfer_env(n: NodeView, e: EnvView) -> EnvView {
    match n {
        NodeView::Assign(x, a) => e.set(x, e.eval(a)),
        _ => e,
    }
}

/// The environment at the program's entry: the input `x` is unknown, every
/// other variable holds 0.
pub open spec fn entry_env() -> EnvView {
    EnvView { map: Map::<Name, ConstLat>::empty().insert("x"@, ConstLat::Top), default: ConstLat::Const(0) }
}

/// The environment that knows nothing yet.
pub open spec fn bottom_env() -> EnvView {
    EnvView { map: Map::<Name, ConstLat>::empty(), default: ConstLat::Bot }
}

/// The map that a list of bindings stands for: a later binding of a
/// variable replaces an earlier one.
pub open spec fn bindings_map(s: Seq<(VarName, ConstLat)>) -> Map<Name, ConstLat>
    decreases s.len(),
{
    if s.len() == 0 {
        Map::empty()
    } else {
        bindings_map(s.drop_last()).insert(s.last().0@, s.last().1)
    }
}

/// The variables of a map are those that its list binds.
proof fn lemma_bindings_dom(s: Seq<(VarName, ConstLat)>, k: Name)
    ensures
        bindings_map(s).contains_key(k) <==> exists|i: int| 0 <= i < s.len() && (#[trigger] s[i]).0@ == k,
    decreases s.len(),
{
    if s.len() > 0 {
        lemma_bindings_dom(s.drop_last(), k);
        if bindings_map(s).contains_key(k) {
            if s.last().0@ == k {
                assert(s[s.len() - 1].0@ == k);
            } else {
                let i = choose|i: int| 0 <= i < s.drop_last().len() && (#[trigger] s.drop_last()[i]).0@ == k;
                assert(s[i].0@ == k);
            }
        }
        if exists|i: int| 0 <= i < s.len() && (#[trigger] s[i]).0@ == k {
            let i = choose|i: int| 0 <= i < s.len() && (#[trigger] s[i]).0@ == k;
            if i < s.len() - 1 {
                assert(s.drop_last()[i].0@ == k);
            }
        }
    }
}

/// Taking a binding of `k` out of a list does not matter once `k` is bound
/// anew.
proof fn lemma_bindings_remove(s: Seq<(VarName, ConstLat)>, i: int, k: Name, v: ConstLat)
    requires
        0 <= i < s.len(),
        s[i].0@ == k,
    ensures
        bindings_map(s.remove(i)).insert(k, v) == bindings_map(s).insert(k, v),
    decreases s.len(),
{
    if i == s.len() - 1 {
        assert(s.remove(i) =~= s.drop_last());
        assert(bindings_map(s.drop_last()).insert(k, v) =~= bindings_map(s).insert(k, v));
    } else {
        assert(s.remove(i).drop_last() =~= s.drop_last().remove(i));
        assert(s.remove(i).last() == s.last());
        lemma_bindings_remove(s.drop_last(), i, k, v);
        let a = bindings_map(s.drop_last().remove(i));
        let b = bindings_map(s.drop_last());
        assert(a.insert(k, v) == b.insert(k, v));
        let (lk, lv) = (s.last().0@, s.last().1);
        assert(a.insert(lk, lv).insert(k, v) =~= a.insert(k, v).insert(lk, lv).insert(k, v));
        assert(b.insert(lk, lv).insert(k, v) =~= b.insert(k, v).insert(lk, lv).insert(k, v));
    }
}

/// What is known of every variable: the values that constant propagation
/// lets flow through a graph.
#[derive(Debug)]
pub struct MultiConstLat {
    map: Vec<(VarName, ConstLat)>,
    default: ConstLat,
}

impl View for MultiConstLat {
    type V = EnvView;

    closed spec fn view(&self) -> EnvView {
        EnvView { map: bindings_map(self.map@), default: self.default }
    }
}

impl MultiConstLat {
    /// The environment with the bindings of `map`, of which a later one
    /// replaces an earlier one of the same variable, and with `default` for
    /// every other variable.
    pub fn new(map: Vec<(VarName, ConstLat)>, default: ConstLat) -> (r: MultiConstLat)
        ensures
            r@ == (EnvView { map: bindings_map(map@), default }),
    {
        MultiConstLat { map, default }
    }

    /// The position of the last binding of `x`, if there is one.
    fn find(&self, x: &VarName) -> (r: Option<usize>)
        ensures
            match r {
                Some(i) => i < self.map@.len() && self.map@[i as int].0@ == x@ && self@.map.contains_key(x@)
                    && self@.map[x@] == self.map@[i as int].1,
                None => !self@.map.contains_key(x@),
            },
    {
        let mut i: usize = self.map.len();
        proof {
            assert(self.map@.take(i as int) =~= self.map@);
        }
        while i > 0
            invariant
                i <= self.map.len(),
                self@.map.contains_key(x@) == bindings_map(self.map@.take(i as int)).contains_key(x@),
                self@.map.contains_key(x@) ==> self@.map[x@] == bindings_map(self.map@.take(i as int))[x@],
            decreases i,
        {
            i -= 1;
            proof {
                assert(self.map@.take(i + 1).drop_last() =~= self.map@.take(i as int));
                assert(self.map@.take(i + 1).last() == self.map@[i as int]);
            }
            if self.map[i].0.same(x) {
                return Some(i);
            }
        }
        None
    }

    /// Sets what is known of the variable `x` to `v`.
    pub fn insert(&mut self, x: VarName, v: ConstLat)
        ensures
            final(self)@ == old(self)@.set(x@, v),
    {
        let ghost before = self.map@;
        let ghost name = x@;
        match self.find(&x) {
            Some(i) => {
                self.map.remove(i);
                proof {
                    lemma_bindings_remove(before, i as int, name, v);
                    assert(self.map@ == before.remove(i as int));
                }
            },
            None => {},
        }
        let ghost mid = self.map@;
        self.map.push((x, v));
        proof {
            assert(self.map@.drop_last() =~= mid);
            assert(bindings_map(self.map@) == bindings_map(mid).insert(name, v));
        }
    }

    /// What is known of the variable `x`.
    pub fn lookup(&self, x: &VarName) -> (r: &ConstLat)
        ensures
            *r == self@.lookup(x@),
    {
        match self.find(x) {
            Some(i) => &self.map[i].1,
            None => &self.default,
        }
    }
}

impl MultiConstLat {
    /// The bindings of the environment in the order in which they are
    /// stored.
    pub closed spec fn entries(self) -> Seq<(VarName, ConstLat)> {
        self.map@
    }

    /// The bindings of the environment; a later binding of a variable
    /// replaces an earlier one.
    pub fn bindings(&self) -> (r: &Vec<(VarName, ConstLat)>)
        ensures
            r@ == self.entries(),
            bindings_map(r@) == self@.map,
    {
        &self.map
    }

    /// What the environment knows of every variable without a binding.
    pub fn default_value(&self) -> (r: ConstLat)
        ensures
            r == self@.default,
    {
        self.default
    }

    /// Whether the variable `x` has a binding of its own.
    pub fn contains_key(&self, x: &VarName) -> (r: bool)
        ensures
            r == self@.map.contains_key(x@),
    {
        self.find(x).is_some()
    }

    /// The abstract value of the arithmetic expression `a`.
    pub fn eval_aexp(&self, a: &AExp) -> (r: ConstLat)
        ensures
            r == self@.eval(a@),
        decreases a,
    {
        match a {
            AExp::Num(n) => ConstLat::Const(*n),
            AExp::Var(v) => *self.lookup(v),
            AExp::Add(a1, a2) => {
                let plus = |x: i32, y: i32| -> (r: i32)
                    ensures
                        r == x.wrapping_add(y),
                    { x.wrapping_add(y) };
                self.eval_aexp(a1).eval_bin_op(plus, self.eval_aexp(a2))
            },
            AExp::Mul(a1, a2) => {
                let mul = |x: i32, y: i32| -> (r: i32)
                    ensures
                        r == x.wrapping_mul(y),
                    { x.wrapping_mul(y) };
                self.eval_aexp(a1).eval_bin_op(mul, self.eval_aexp(a2))
            },
        }
    }
}

impl PartialEq for MultiConstLat {
    fn eq(&self, other: &MultiConstLat) -> (r: bool) {
        self.same(other)
    }
}

impl MultiConstLat {
    /// Whether the two environments bind the same variables to the same
    /// values and have the same default.
    pub fn same(&self, other: &MultiConstLat) -> (r: bool)
        ensures
            r == (self@ == other@),
    {
        if self.default != other.default {
            return false;
        }
        let mut i: usize = 0;
        while i < self.map.len()
            invariant
                i <= self.map.len(),
                forall|j: int|
                    0 <= j < i ==> self@.map.contains_key((#[trigger] self.map@[j]).0@) && other@.map.contains_key(
                        self.map@[j].0@,
                    ) && other@.map[self.map@[j].0@] == self@.map[self.map@[j].0@],
            decreases self.map.len() - i,
        {
            let x = &self.map[i].0;
            proof {
                lemma_bindings_dom(self.map@, x@);
                assert(self.map@[i as int].0@ == x@);
                assert(self@.map.contains_key(x@));
            }
            if !other.contains_key(x) || *other.lookup(x) != *self.lookup(x) {
                assert(self@.map.contains_key(x@));
                return false;
            }
            i += 1;
        }
        let mut j: usize = 0;
        while j < other.map.len()
            invariant
                j <= other.map.len(),
                forall|k: int| 0 <= k < j ==> self@.map.contains_key((#[trigger] other.map@[k]).0@),
            decreases other.map.len() - j,
        {
            let x = &other.map[j].0;
            proof {
                lemma_bindings_dom(other.map@, x@);
                assert(other.map@[j as int].0@ == x@);
                assert(other@.map.contains_key(x@));
            }
            if !self.contains_key(x) {
                return false;
            }
            j += 1;
        }
        proof {
            assert forall|k: Name| #[trigger] self@.map.contains_key(k) implies other@.map.contains_key(k)
                && other@.map[k] == self@.map[k] by {
                lemma_bindings_dom(self.map@, k);
                let i = choose|i: int| 0 <= i < self.map@.len() && (#[trigger] self.map@[i]).0@ == k;
                assert(other@.map.contains_key(self.map@[i].0@));
            }
            assert forall|k: Name| #[trigger] other@.map.contains_key(k) implies self@.map.contains_key(k) by {
                lemma_bindings_dom(other.map@, k);
                let i = choose|i: int| 0 <= i < other.map@.len() && (#[trigger] other.map@[i]).0@ == k;
                assert(self@.map.contains_key(other.map@[i].0@));
            }
            assert(self@.map =~= other@.map);
        }
        true
    }
}

impl PartialEqSpecImpl for MultiConstLat {
    open spec fn obeys_eq_spec() -> bool {
        true
    }

    open spec fn eq_spec(&self, other: &MultiConstLat) -> bool {
        self@ == other@
    }
}

/// The order of the environments: an environment is below another if it
/// binds no more variables, and knows no more of any variable.
pub open spec fn le_env(a: EnvView, b: EnvView) -> bool {
    &&& a.map.dom().subset_of(b.map.dom())
    &&& le_const(a.default, b.default)
    &&& forall|k: Name| le_const(#[trigger] a.lookup(k), b.lookup(k))
}

/// The join of two environments knows of every variable the join of what
/// the two know of it.
pub(crate) proof fn lemma_join_lookup(a: EnvView, b: EnvView, k: Name)
    ensures
        join_env(a, b).lookup(k) == join_const(a.lookup(k), b.lookup(k)),
{
}

/// The abstract value of an expression grows with the environment.
proof fn lemma_eval_monotone(a: EnvView, b: EnvView, e: AExpView)
    requires
        le_env(a, b),
    ensures
        le_const(a.eval(e), b.eval(e)),
    decreases e,
{
    match e {
        AExpView::Num(_) => {},
        AExpView::Var(x) => {
            assert(le_const(a.lookup(x), b.lookup(x)));
        },
        AExpView::Add(l, r) => {
            lemma_eval_monotone(a, b, *l);
            lemma_eval_monotone(a, b, *r);
        },
        AExpView::Mul(l, r) => {
            lemma_eval_monotone(a, b, *l);
            lemma_eval_monotone(a, b, *r);
        },
    }
}

impl SemiLat for MultiConstLat {
    open spec fn lat_wf(&self) -> bool {
        true
    }

    open spec fn join_spec(a: EnvView, b: EnvView) -> EnvView {
        join_env(a, b)
    }

    open spec fn le(a: EnvView, b: EnvView) -> bool {
        le_env(a, b)
    }

    fn join_bin(&self, other: &MultiConstLat) -> (r: MultiConstLat) {
        let mut m = MultiConstLat { map: Vec::new(), default: self.default.join_bin(&other.default) };
        let mut i: usize = 0;
        while i < self.map.len()
            invariant
                i <= self.map.len(),
                m@.default == join_const(self@.default, other@.default),
                forall|k: Name|
                    #[trigger] m@.map.contains_key(k) <==> bindings_map(self.map@.take(i as int)).contains_key(k),
                forall|k: Name|
                    #[trigger] m@.map.contains_key(k) ==> m@.map[k] == join_const(
                        self@.lookup(k),
                        other@.lookup(k),
                    ),
            decreases self.map.len() - i,
        {
            let x = &self.map[i].0;
            let v = self.lookup(x).join_bin(other.lookup(x));
            proof {
                assert(self.map@.take(i + 1).drop_last() =~= self.map@.take(i as int));
                assert(self.map@.take(i + 1).last() == self.map@[i as int]);
            }
            m.insert(x.clone(), v);
            i += 1;
        }
        proof {
            assert(self.map@.take(i as int) =~= self.map@);
        }
        let mut j: usize = 0;
        while j < other.map.len()
            invariant
                j <= other.map.len(),
                m@.default == join_const(self@.default, other@.default),
                forall|k: Name|
                    #[trigger] m@.map.contains_key(k) <==> (self@.map.contains_key(k) || bindings_map(
                        other.map@.take(j as int),
                    ).contains_key(k)),
                forall|k: Name|
                    #[trigger] m@.map.contains_key(k) ==> m@.map[k] == join_const(
                        self@.lookup(k),
                        other@.lookup(k),
                    ),
            decreases other.map.len() - j,
        {
            let x = &other.map[j].0;
            proof {
                assert(other.map@.take(j + 1).drop_last() =~= other.map@.take(j as int));
                assert(other.map@.take(j + 1).last() == other.map@[j as int]);
            }
            if !self.contains_key(x) {
                let v = self.lookup(x).join_bin(other.lookup(x));
                m.insert(x.clone(), v);
            }
            j += 1;
        }
        proof {
            assert(other.map@.take(j as int) =~= other.map@);
            assert(m@.map =~= join_env(self@, other@).map);
        }
        m
    }

    proof fn lemma_join_idempotent(a: EnvView) {
        assert(join_env(a, a).map =~= a.map);
    }

    proof fn lemma_join_commutative(a: EnvView, b: EnvView) {
        assert(join_env(a, b).map =~= join_env(b, a).map);
    }

    proof fn lemma_join_associative(a: EnvView, b: EnvView, c: EnvView) {
        let l = join_env(join_env(a, b), c);
        let r = join_env(a, join_env(b, c));
        assert forall|k: Name| l.map.contains_key(k) implies #[trigger] l.map[k] == r.map[k] by {
            lemma_join_lookup(a, b, k);
            lemma_join_lookup(b, c, k);
        }
        assert(l.map =~= r.map);
    }

    proof fn lemma_le_preorder(a: EnvView, b: EnvView, c: EnvView) {
        if le_env(a, b) && le_env(b, c) {
            assert forall|k: Name| le_const(#[trigger] a.lookup(k), c.lookup(k)) by {
                assert(le_const(a.lookup(k), b.lookup(k)));
                assert(le_const(b.lookup(k), c.lookup(k)));
            }
        }
    }

    proof fn lemma_le_antisymmetric(a: EnvView, b: EnvView) {
        assert forall|k: Name| #[trigger] a.map.contains_key(k) implies b.map.contains_key(k) && a.map[k]
            == b.map[k] by {
            assert(a.map.dom().contains(k));
            assert(le_const(a.lookup(k), b.lookup(k)));
            assert(le_const(b.lookup(k), a.lookup(k)));
        }
        assert forall|k: Name| #[trigger] b.map.contains_key(k) implies a.map.contains_key(k) by {
            assert(b.map.dom().contains(k));
        }
        assert(a.map =~= b.map);
    }

    proof fn lemma_join_monotone(a: EnvView, b: EnvView, c: EnvView, d: EnvView) {
        assert forall|k: Name| le_const(#[trigger] join_env(a, b).lookup(k), join_env(c, d).lookup(k)) by {
            lemma_join_lookup(a, b, k);
            lemma_join_lookup(c, d, k);
            assert(le_const(a.lookup(k), c.lookup(k)));
            assert(le_const(b.lookup(k), d.lookup(k)));
        }
    }
}

/// The variables of which an analysis of the nodes `nodes` can speak: the
/// input `x`, and each variable that a node assigns.
pub open spec fn scope_vars(nodes: Seq<NodeView>) -> Seq<Name>
    decreases nodes.len(),
{
    if nodes.len() == 0 {
        seq!["x"@]
    } else {
        match nodes.last() {
            NodeView::Assign(x, _) => scope_vars(nodes.drop_last()).push(x),
            _ => scope_vars(nodes.drop_last()),
        }
    }
}

/// The input and the variable of every assignment are in scope.
proof fn lemma_scope_vars(nodes: Seq<NodeView>, i: int)
    requires
        0 <= i < nodes.len(),
    ensures
        scope_vars(nodes).contains("x"@),
        nodes[i] matches NodeView::Assign(x, _) ==> scope_vars(nodes).contains(x),
    decreases nodes.len(),
{
    let rest = scope_vars(nodes.drop_last());
    if nodes.len() == 1 {
        assert(nodes.drop_last().len() == 0);
        assert(rest[0] == "x"@);
        assert(scope_vars(nodes)[0] == "x"@);
    } else {
        lemma_scope_vars(nodes.drop_last(), if i < nodes.len() - 1 {
            i
        } else {
            0
        });
        let j = choose|j: int| 0 <= j < rest.len() && rest[j] == "x"@;
        assert(scope_vars(nodes)[j] == "x"@);
    }
    if let NodeView::Assign(x, _) = nodes[i] {
        if i == nodes.len() - 1 {
            assert(scope_vars(nodes)[rest.len() as int] == x);
        } else {
            let j = choose|j: int| 0 <= j < rest.len() && rest[j] == x;
            assert(scope_vars(nodes)[j] == x);
        }
    }
}

/// Whether an environment binds only variables in the scope of `nodes`.
pub open spec fn env_in_scope(e: EnvView, nodes: Seq<NodeView>) -> bool {
    forall|k: Name| #[trigger] e.map.contains_key(k) ==> scope_vars(nodes).contains(k)
}

/// The height of what an environment knows of the variable `k`.
pub open spec fn var_rank(e: EnvView, k: Name) -> nat {
    rank_const(e.lookup(k)) + if e.map.contains_key(k) {
        1nat
    } else {
        0nat
    }
}

/// The sum of the heights of what an environment knows of the variables
/// `vars`.
pub open spec fn vars_rank(e: EnvView, vars: Seq<Name>) -> nat
    decreases vars.len(),
{
    if vars.len() == 0 {
        0
    } else {
        vars_rank(e, vars.drop_last()) + var_rank(e, vars.last())
    }
}

/// The height of an environment.
pub open spec fn env_rank(e: EnvView, nodes: Seq<NodeView>) -> nat {
    rank_const(e.default) + vars_rank(e, scope_vars(nodes))
}

/// A bound of the height of every environment.
pub open spec fn env_height(nodes: Seq<NodeView>) -> nat {
    2 + 3 * scope_vars(nodes).len()
}

/// The sum of the heights grows with the environment, strictly if the
/// height of one variable does.
proof fn lemma_vars_rank(a: EnvView, b: EnvView, vars: Seq<Name>)
    requires
        le_env(a, b),
    ensures
        vars_rank(a, vars) <= vars_rank(b, vars) <= 3 * vars.len(),
        (exists|j: int| 0 <= j < vars.len() && var_rank(a, #[trigger] vars[j]) < var_rank(b, vars[j]))
            ==> vars_rank(a, vars) < vars_rank(b, vars),
    decreases vars.len(),
{
    if vars.len() > 0 {
        lemma_vars_rank(a, b, vars.drop_last());
        let k = vars.last();
        assert(le_const(a.lookup(k), b.lookup(k)));
        assert(a.map.dom().contains(k) ==> b.map.dom().contains(k));
        assert(var_rank(a, k) <= var_rank(b, k) <= 3);
        if exists|j: int| 0 <= j < vars.len() && var_rank(a, #[trigger] vars[j]) < var_rank(b, vars[j]) {
            let j = choose|j: int| 0 <= j < vars.len() && var_rank(a, #[trigger] vars[j]) < var_rank(b, vars[j]);
            if j < vars.len() - 1 {
                assert(vars.drop_last()[j] == vars[j]);
            }
        }
    }
}

impl FlowSemantics for MultiConstLat {
    open spec fn transfer_spec(n: NodeView, x: EnvView) -> EnvView {
        transfer_env(n, x)
    }

    open spec fn init_spec(nodes: Seq<NodeView>) -> EnvView {
        bottom_env()
    }

    open spec fn init_start_spec() -> EnvView {
        entry_env()
    }

    open spec fn in_scope(x: EnvView, nodes: Seq<NodeView>) -> bool {
        env_in_scope(x, nodes)
    }

    open spec fn rank(x: EnvView, nodes: Seq<NodeView>) -> nat {
        env_rank(x, nodes)
    }

    open spec fn height(nodes: Seq<NodeView>) -> nat {
        env_height(nodes)
    }

    fn eval_transfer_function(n: &Node, mem: &MultiConstLat) -> (r: MultiConstLat) {
        match n {
            Node::Init => mem.clone(),
            Node::Terminal => mem.clone(),
            Node::Skip => mem.clone(),
            Node::Branch(_) => mem.clone(),
            Node::Assign(v, a) => {
                let evaluated_expr = mem.eval_aexp(a);
                let mut mem = mem.clone();
                mem.insert(v.clone(), evaluated_expr);
                mem
            },
        }
    }

    fn init_start() -> (r: MultiConstLat) {
        let mut m = MultiConstLat::new(Vec::new(), ConstLat::Const(0));
        m.insert(VarName::new("x"), ConstLat::Top);
        m
    }

    fn init(nodes: &Vec<Node>) -> (r: MultiConstLat) {
        MultiConstLat { map: Vec::new(), default: ConstLat::Bot }
    }

    proof fn lemma_eq(a: &MultiConstLat, b: &MultiConstLat) {
    }

    proof fn lemma_transfer_monotone(n: NodeView, a: EnvView, b: EnvView) {
        if let NodeView::Assign(x, e) = n {
            lemma_eval_monotone(a, b, e);
            assert forall|k: Name| le_const(#[trigger] a.set(x, a.eval(e)).lookup(k), b.set(x, b.eval(e)).lookup(k)) by {
                assert(le_const(a.lookup(k), b.lookup(k)));
            }
        }
    }

    proof fn lemma_scope(nodes: Seq<NodeView>, i: int, a: EnvView, b: EnvView) {
        lemma_scope_vars(nodes, i);
        if env_in_scope(a, nodes) {
            assert forall|k: Name| le_const(#[trigger] bottom_env().lookup(k), a.lookup(k)) by {}
            if let NodeView::Assign(x, e) = nodes[i] {
                assert(env_in_scope(a.set(x, a.eval(e)), nodes));
            }
        }
    }

    proof fn lemma_rank(nodes: Seq<NodeView>, a: EnvView, b: EnvView) {
        let vars = scope_vars(nodes);
        lemma_vars_rank(a, b, vars);
        if a != b {
            if a.default == b.default {
                if forall|j: int| 0 <= j < vars.len() ==> var_rank(a, #[trigger] vars[j]) >= var_rank(b, vars[j]) {
                    assert forall|k: Name| #[trigger] b.map.contains_key(k) implies a.map.contains_key(k) && a.map[k]
                        == b.map[k] by {
                        let j = choose|j: int| 0 <= j < vars.len() && vars[j] == k;
                        assert(var_rank(a, vars[j]) >= var_rank(b, vars[j]));
                        assert(le_const(a.lookup(k), b.lookup(k)));
                    }
                    assert forall|k: Name| #[trigger] a.map.contains_key(k) implies b.map.contains_key(k) by {
                        assert(a.map.dom().contains(k));
                    }
                    assert(a.map =~= b.map);
                    assert(false);
                }
            }
        }
    }
}

/// The text of a value: `tt` for `Top`, `bb` for `Bot`, and the number of
/// a constant.
pub open spec fn const_text(c: ConstLat) -> Seq<char> {
    match c {
        ConstLat::Top => "tt"@,
        ConstLat::Const(n) => int_text(n as int),
        ConstLat::Bot => "bb"@,
    }
}

/// The text of a list of bindings: `x = v, ` for each.
pub open spec fn bindings_text(s: Seq<(VarName, ConstLat)>) -> Seq<char>
    decreases s.len(),
{
    if s.len() == 0 {
        Seq::empty()
    } else {
        bindings_text(s.drop_last()) + s.last().0@ + " = "@ + const_text(s.last().1) + ", "@
    }
}

impl Show for ConstLat {
    open spec fn text(&self) -> Seq<char> {
        const_text(*self)
    }

    fn show(&self, out: &mut String) {
        self.write_text(out);
    }
}

impl ConstLat {
    /// Appends the text of the value to `out`.
    pub fn write_text(&self, out: &mut String)
        ensures
            final(out)@ == old(out)@ + const_text(*self),
    {
        match self {
            ConstLat::Top => {
                out.append("tt");
            },
            ConstLat::Const(c) => {
                show_int(*c, out);
            },
            ConstLat::Bot => {
                out.append("bb");
            },
        }
    }
}

impl ConstLat {
    /// The text of the value.
    pub fn to_string(&self) -> (r: String)
        ensures
            r@ == const_text(*self),
    {
        let mut out = String::new();
        self.write_text(&mut out);
        proof {
            assert(out@ =~= const_text(*self));
        }
        out
    }
}

impl Show for MultiConstLat {
    /// The bindings in the order in which they were last set, then the
    /// default: `<x = tt, y = 2, _ = 0>`.
    open spec fn text(&self) -> Seq<char> {
        "<"@ + bindings_text(self.entries()) + "_ = "@ + const_text(self@.default) + ">"@
    }

    fn show(&self, out: &mut String) {
        self.write_text(out);
    }
}

impl MultiConstLat {
    /// Appends the text of the value to `out`.
    pub fn write_text(&self, out: &mut String)
        ensures
            final(out)@ == old(out)@ + self.text(),
    {
        out.append("<");
        let mut i: usize = 0;
        proof {
            assert(self.map@.take(0) =~= Seq::<(VarName, ConstLat)>::empty());
            assert(out@ =~= old(out)@ + "<"@ + bindings_text(self.map@.take(0)));
        }
        while i < self.map.len()
            invariant
                i <= self.map.len(),
                out@ == old(out)@ + "<"@ + bindings_text(self.map@.take(i as int)),
            decreases self.map.len() - i,
        {
            self.map[i].0.write_text(out);
            out.append(" = ");
            self.map[i].1.write_text(out);
            out.append(", ");
            proof {
                let next = self.map@.take(i + 1);
                assert(next.drop_last() =~= self.map@.take(i as int));
                assert(next.last() == self.map@[i as int]);
                assert(out@ =~= old(out)@ + "<"@ + bindings_text(next));
            }
            i += 1;
        }
        proof {
            assert(self.map@.take(i as int) =~= self.map@);
        }
        out.append("_ = ");
        self.default.write_text(out);
        out.append(">");
        proof {
            assert(final(out)@ =~= old(out)@ + self.text());
        }
    }
}

impl MultiConstLat {
    /// The text of the environment.
    pub fn to_string(&self) -> (r: String)
        ensures
            r@ == self.text(),
    {
        let mut out = String::new();
        self.write_text(&mut out);
        proof {
            assert(out@ =~= self.text());
        }
        out
    }
}

impl Clone for MultiConstLat {
    fn clone(&self) -> (r: MultiConstLat)
        ensures
            r@ == self@,
    {
        let mut map: Vec<(VarName, ConstLat)> = Vec::new();
        let mut i: usize = 0;
        while i < self.map.len()
            invariant
                i <= self.map.len(),
                map@ == self.map@.take(i as int),
            decreases self.map.len() - i,
        {
            map.push((self.map[i].0.clone(), self.map[i].1));
            proof {
                assert(map@ =~= self.map@.take(i + 1));
            }
            i += 1;
        }
        proof {
            assert(self.map@.take(i as int) =~= self.map@);
        }
        MultiConstLat { map, default: self.default }
    }
}

} // verus!
