use vstd::prelude::*;
use vstd::std_specs::cmp::PartialEqSpecImpl;

verus! {

/// The mathematical value of a variable name: its characters.
pub type Name = Seq<char>;

/// A program variable, identified by its spelling.
#[derive(Debug, Eq, Hash)]
pub struct VarName(pub String);

impl View for VarName {
    type V = Name;

    open spec fn view(&self) -> Name {
        self.0@
    }
}

impl VarName {
    /// The variable spelled `s`.
    pub fn new(s: &str) -> (r: VarName)
        ensures
            r@ == s@,
    {
        VarName(s.to_owned())
    }

    /// Whether the two variables are spelled alike.
    pub fn same(&self, other: &VarName) -> (r: bool)
        ensures
            r == (self@ == other@),
    {
        self.0 == other.0
    }

    /// The spelling of the variable.
    pub fn name(&self) -> (r: &str)
        ensures
            r@ == self@,
    {
        self.0.as_str()
    }
}

impl Clone for VarName {
    fn clone(&self) -> (r: VarName)
        ensures
            r == *self,
    {
        VarName(self.0.clone())
    }
}

impl PartialEq for VarName {
    fn eq(&self, other: &VarName) -> (r: bool) {
        self.same(other)
    }
}

impl PartialEqSpecImpl for VarName {
    open spec fn obeys_eq_spec() -> bool {
        true
    }

    open spec fn eq_spec(&self, other: &VarName) -> bool {
        self@ == other@
    }
}

} // verus!
