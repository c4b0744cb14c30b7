use vstd::prelude::*;
use crate::text::{decimal_usize, spec_decimal};

verus! {

/// A reference to one qubit: a register name and an index into it.
#[derive(Debug)]
pub struct QubitRef {
    pub register: String,
    pub index: usize,
}

/// A reference to one classical bit: a register name and an index into it.
#[derive(Debug)]
pub struct CbitRef {
    pub register: String,
    pub index: usize,
}

/// The identity of a qubit or bit: its register's name and its index.
pub type BitKey = (Seq<char>, usize);

impl View for QubitRef {
    type V = BitKey;

    open spec fn view(&self) -> BitKey {
        (self.register@, self.index)
    }
}

impl View for CbitRef {
    type V = BitKey;

    open spec fn view(&self) -> BitKey {
        (self.register@, self.index)
    }
}

impl QubitRef {
    pub fn new(register: &str, index: usize) -> (r: Self)
        ensures
            r.register@ == register@,
            r.index == index,
    {
        QubitRef { register: register.to_owned(), index }
    }

    /// How the reference is written: the register's name, then the index in brackets.
    pub fn to_string(&self) -> (s: String)
        ensures
            s@ == self.register@ + "["@ + spec_decimal(self.index as int) + "]"@,
    {
        let mut s = self.register.clone();
        s.append("[");
        s.append(decimal_usize(self.index).as_str());
        s.append("]");
        s
    }

    /// Whether both references name the same qubit.
    pub fn same_as(&self, other: &QubitRef) -> (b: bool)
        ensures
            b == (self@ == other@),
    {
        self.index == other.index && self.register == other.register
    }
}

impl CbitRef {
    pub fn new(register: &str, index: usize) -> (r: Self)
        ensures
            r.register@ == register@,
            r.index == index,
    {
        CbitRef { register: register.to_owned(), index }
    }
}

impl Clone for QubitRef {
    fn clone(&self) -> (r: Self)
        ensures
            r == *self,
    {
        QubitRef { register: self.register.clone(), index: self.index }
    }
}

impl Clone for CbitRef {
    fn clone(&self) -> (r: Self)
        ensures
            r == *self,
    {
        CbitRef { register: self.register.clone(), index: self.index }
    }
}

impl PartialEq for QubitRef {
    fn eq(&self, other: &Self) -> (r: bool) {
        self.same_as(other)
    }
}

impl vstd::std_specs::cmp::PartialEqSpecImpl for QubitRef {
    open spec fn obeys_eq_spec() -> bool {
        true
    }

    open spec fn eq_spec(&self, other: &Self) -> bool {
        self@ == other@
    }
}

impl PartialEq for CbitRef {
    fn eq(&self, other: &Self) -> (r: bool) {
        self.index == other.index && self.register == other.register
    }
}

impl vstd::std_specs::cmp::PartialEqSpecImpl for CbitRef {
    open spec fn obeys_eq_spec() -> bool {
        true
    }

    open spec fn eq_spec(&self, other: &Self) -> bool {
        self@ == other@
    }
}

} // verus!
