use vstd::prelude::*;
use vstd::std_specs::cmp::PartialEqSpecImpl;
use crate::aexp::{AExp, AExpView};
use crate::common::VarName;
use crate::text::{Show, aexp_text};
use vstd::string::StringExecFns;

verus! {

/// The values of a sequence of expressions, in the same order.
pub open spec fn views_of(items: Seq<AExp>) -> Seq<AExpView> {
    items.map_values(|e: AExp| e@)
}

/// A finite set of arithmetic expressions, compared by value.
///
/// The expressions are kept in the order in which they were first added;
/// none occurs twice.
#[derive(Debug)]
pub struct ExpSet {
    items: Vec<AExp>,
}

impl View for ExpSet {
    type V = Set<AExpView>;

    closed spec fn view(&self) -> Set<AExpView> {
        views_of(self.items@).to_set()
    }
}

impl ExpSet {
    /// No expression is stored twice.
    pub closed spec fn wf(self) -> bool {
        views_of(self.items@).no_duplicates()
    }

    /// The stored order lists each member once and nothing else.
    pub proof fn lemma_elements(self)
        requires
            self.wf(),
        ensures
            self.elements().no_duplicates(),
            self.elements().to_set() == self@,
            self@.finite(),
            self@.len() == self.elements().len(),
    {
        self.elements().unique_seq_to_set();
        vstd::seq_lib::seq_to_set_is_finite(self.elements());
    }

    /// The expressions of the set in the order in which they are stored.
    pub closed spec fn elements(self) -> Seq<AExpView> {
        views_of(self.items@)
    }

    /// The empty set.
    pub fn new() -> (r: ExpSet)
        ensures
            r.wf(),
            r@ == Set::<AExpView>::empty(),
    {
        let r = ExpSet { items: Vec::new() };
        assert(views_of(r.items@) =~= Seq::<AExpView>::empty());
        assert(r@ =~= Set::<AExpView>::empty());
        r
    }

    /// The number of expressions in the set.
    pub fn len(&self) -> (n: usize)
        requires
            self.wf(),
        ensures
            n == self@.len(),
            self@.finite(),
    {
        proof {
            self.lemma_elements();
        }
        self.items.len()
    }

    /// Whether `e` is a member.
    pub fn contains(&self, e: &AExp) -> (r: bool)
        ensures
            r == self@.contains(e@),
    {
        let mut i: usize = 0;
        while i < self.items.len()
            invariant
                i <= self.items.len(),
                forall|j: int| 0 <= j < i ==> views_of(self.items@)[j] != e@,
            decreases self.items.len() - i,
        {
            if self.items[i].same(e) {
                assert(views_of(self.items@)[i as int] == e@);
                return true;
            }
            i += 1;
        }
        false
    }

    /// Adds `e`; returns whether it was new.
    pub fn insert(&mut self, e: AExp) -> (r: bool)
        requires
            old(self).wf(),
        ensures
            final(self).wf(),
            final(self)@ == old(self)@.insert(e@),
            r == !old(self)@.contains(e@),
    {
        if self.contains(&e) {
            assert(self@.insert(e@) =~= self@);
            false
        } else {
            let ghost before = views_of(self.items@);
            self.items.push(e);
            proof {
                assert(views_of(self.items@) =~= before.push(e@));
                lemma_push_to_set(before, e@);
            }
            true
        }
    }

    /// The expression stored at position `i`.
    pub fn get(&self, i: usize) -> (r: &AExp)
        requires
            i < self.elements().len(),
        ensures
            r@ == self.elements()[i as int],
    {
        &self.items[i]
    }

    /// The number of stored expressions, as the bound of `get`.
    pub fn size(&self) -> (n: usize)
        ensures
            n == self.elements().len(),
    {
        self.items.len()
    }
}

impl ExpSet {
    /// Adds every expression of `other`.
    pub fn union_with(&mut self, other: &ExpSet)
        requires
            old(self).wf(),
        ensures
            final(self).wf(),
            final(self)@ == old(self)@.union(other@),
    {
        let mut i: usize = 0;
        while i < other.items.len()
            invariant
                i <= other.items.len(),
                self.wf(),
                self@ == old(self)@.union(views_of(other.items@.take(i as int)).to_set()),
            decreases other.items.len() - i,
        {
            let e = other.items[i].clone();
            self.insert(e);
            proof {
                let before = views_of(other.items@.take(i as int));
                let after = views_of(other.items@.take(i + 1));
                assert(after =~= before.push(other.items@[i as int]@));
                lemma_push_to_set(before, other.items@[i as int]@);
                assert(self@ =~= old(self)@.union(after.to_set()));
            }
            i += 1;
        }
        proof {
            assert(other.items@.take(i as int) =~= other.items@);
        }
    }

    /// The expressions that are in both sets.
    pub fn intersection(&self, other: &ExpSet) -> (r: ExpSet)
        requires
            self.wf(),
        ensures
            r.wf(),
            r@ == self@.intersect(other@),
    {
        let mut r = ExpSet::new();
        let mut i: usize = 0;
        while i < self.items.len()
            invariant
                i <= self.items.len(),
                r.wf(),
                r@ == views_of(self.items@.take(i as int)).to_set().intersect(other@),
            decreases self.items.len() - i,
        {
            proof {
                let before = views_of(self.items@.take(i as int));
                let after = views_of(self.items@.take(i + 1));
                assert(after =~= before.push(self.items@[i as int]@));
                lemma_push_to_set(before, self.items@[i as int]@);
            }
            if other.contains(&self.items[i]) {
                let e = self.items[i].clone();
                r.insert(e);
            }
            proof {
                assert(r@ =~= views_of(self.items@.take(i + 1)).to_set().intersect(other@));
            }
            i += 1;
        }
        proof {
            assert(self.items@.take(i as int) =~= self.items@);
        }
        r
    }

    /// Removes every expression in which the variable `x` occurs.
    pub fn remove_var(&mut self, x: &VarName)
        requires
            old(self).wf(),
        ensures
            final(self).wf(),
            final(self)@ == old(self)@.filter(|e: AExpView| !e.mentions(x@)),
    {
        let mut r = ExpSet::new();
        let mut i: usize = 0;
        while i < self.items.len()
            invariant
                i <= self.items.len(),
                *self == *old(self),
                r.wf(),
                r@ == views_of(self.items@.take(i as int)).to_set().filter(|e: AExpView| !e.mentions(x@)),
            decreases self.items.len() - i,
        {
            proof {
                let before = views_of(self.items@.take(i as int));
                let after = views_of(self.items@.take(i + 1));
                assert(after =~= before.push(self.items@[i as int]@));
                lemma_push_to_set(before, self.items@[i as int]@);
            }
            if !self.items[i].contains_var(x) {
                let e = self.items[i].clone();
                r.insert(e);
            }
            proof {
                assert(r@ =~= views_of(self.items@.take(i + 1)).to_set().filter(|e: AExpView| !e.mentions(x@)));
            }
            i += 1;
        }
        proof {
            assert(self.items@.take(i as int) =~= self.items@);
        }
        *self = r;
    }

    /// Whether every expression of the set is in `other`.
    pub fn is_subset(&self, other: &ExpSet) -> (r: bool)
        ensures
            r == self@.subset_of(other@),
    {
        let mut i: usize = 0;
        while i < self.items.len()
            invariant
                i <= self.items.len(),
                forall|j: int| 0 <= j < i ==> other@.contains(#[trigger] views_of(self.items@)[j]),
            decreases self.items.len() - i,
        {
            if !other.contains(&self.items[i]) {
                assert(self@.contains(views_of(self.items@)[i as int]));
                return false;
            }
            i += 1;
        }
        proof {
            assert forall|a: AExpView| self@.contains(a) implies other@.contains(a) by {
                let j = choose|j: int| 0 <= j < views_of(self.items@).len() && views_of(self.items@)[j] == a;
                assert(other@.contains(views_of(self.items@)[j]));
            }
        }
        true
    }
}

/// The texts of the expressions `s`, separated by `, `.
pub open spec fn list_text(s: Seq<AExpView>) -> Seq<char>
    decreases s.len(),
{
    if s.len() == 0 {
        Seq::empty()
    } else if s.len() == 1 {
        aexp_text(s[0])
    } else {
        list_text(s.drop_last()) + ", "@ + aexp_text(s.last())
    }
}

impl Show for ExpSet {
    /// The expressions in the order in which they were first added,
    /// between braces: `{x, x*x}`.
    open spec fn text(&self) -> Seq<char> {
        "{"@ + list_text(self.elements()) + "}"@
    }

    fn show(&self, out: &mut String) {
        self.write_text(out);
    }
}

impl ExpSet {
    /// Appends the text of the value to `out`.
    pub fn write_text(&self, out: &mut String)
        ensures
            final(out)@ == old(out)@ + self.text(),
    {
        out.append("{");
        let mut i: usize = 0;
        proof {
            assert(views_of(self.items@.take(0)) =~= Seq::<AExpView>::empty());
            assert(out@ =~= old(out)@ + "{"@ + list_text(views_of(self.items@.take(0))));
        }
        while i < self.items.len()
            invariant
                i <= self.items.len(),
                out@ == old(out)@ + "{"@ + list_text(views_of(self.items@.take(i as int))),
            decreases self.items.len() - i,
        {
            if i > 0 {
                out.append(", ");
            }
            self.items[i].write_text(out);
            proof {
                let next = views_of(self.items@.take(i + 1));
                assert(next.drop_last() =~= views_of(self.items@.take(i as int)));
                assert(next.last() == self.items@[i as int]@);
                assert(out@ =~= old(out)@ + "{"@ + list_text(next));
            }
            i += 1;
        }
        proof {
            assert(self.items@.take(i as int) =~= self.items@);
        }
        out.append("}");
        proof {
            assert(final(out)@ =~= old(out)@ + self.text());
        }
    }
}

impl ExpSet {
    /// The text of the set.
    pub fn to_string(&self) -> (r: String)
        ensures
            r@ == self.text(),
    {
        let mut out = String::new();
        self.write_text(&mut out);
        proof {
            assert(out@ =~= self.text());
        }
        out
    }
}

/// The set of a sequence with one more element.
proof fn lemma_push_to_set(s: Seq<AExpView>, a: AExpView)
    ensures
        s.push(a).to_set() == s.to_set().insert(a),
{
    s.lemma_push_to_set_commute(a);
}

impl Clone for ExpSet {
    fn clone(&self) -> (r: ExpSet)
        ensures
            r@ == self@,
            r.elements() == self.elements(),
            self.wf() ==> r.wf(),
    {
        let items = self.items.clone();
        proof {
            assert(views_of(items@) =~= views_of(self.items@));
        }
        ExpSet { items }
    }
}

impl ExpSet {
    /// Whether the two sets have the same expressions.
    pub fn same(&self, other: &ExpSet) -> (r: bool)
        ensures
            r == (self@ == other@),
    {
        let r = self.is_subset(other) && other.is_subset(self);
        proof {
            if r {
                assert(self@ =~= other@);
            }
        }
        r
    }
}

impl PartialEq for ExpSet {
    fn eq(&self, other: &ExpSet) -> (r: bool) {
        self.same(other)
    }
}

impl PartialEqSpecImpl for ExpSet {
    open spec fn obeys_eq_spec() -> bool {
        true
    }

    open spec fn eq_spec(&self, other: &ExpSet) -> bool {
        self@ == other@
    }
}

} // verus!
