use vstd::prelude::*;

verus! {

/// The mathematical value of a symbol: its variable name, its lag and its power.
pub type SymbolView = (Seq<char>, nat, nat);

/// What a variable name can be given as: a string slice or a string, owned or borrowed.
/// The set of such types is closed.
pub trait NameSource: crate::sealed::Sealed {
    spec fn name_view(&self) -> Seq<char>;

    fn into_name(self) -> (s: String)
        ensures
            s@ == self.name_view(),
    ;
}

impl<'a> NameSource for &'a str {
    open spec fn name_view(&self) -> Seq<char> {
        (*self)@
    }

    fn into_name(self) -> (s: String) {
        self.to_owned()
    }
}

impl NameSource for String {
    open spec fn name_view(&self) -> Seq<char> {
        self@
    }

    fn into_name(self) -> (s: String) {
        self
    }
}

impl<'a> NameSource for &'a String {
    open spec fn name_view(&self) -> Seq<char> {
        (*self)@
    }

    fn into_name(self) -> (s: String) {
        self.clone()
    }
}

/// One factor `name(k - index)^power` of a regressor.
#[derive(Debug, Hash, PartialOrd, Ord)]
pub struct Symbol {
    name: String,
    index: usize,
    power: usize,
}

impl View for Symbol {
    type V = SymbolView;

    closed spec fn view(&self) -> SymbolView {
        (self.name@, self.index as nat, self.power as nat)
    }
}

impl Symbol {
    pub fn new<N: NameSource>(name: N, index: usize, power: usize) -> (s: Symbol)
        ensures
            s@ == (name.name_view(), index as nat, power as nat),
    {
        Symbol { name: name.into_name(), index, power }
    }

    pub fn name(&self) -> (n: &str)
        ensures
            n@ == self@.0,
    {
        self.name.as_str()
    }

    pub fn index(&self) -> (i: usize)
        ensures
            i == self@.1,
    {
        self.index
    }

    pub fn power(&self) -> (p: usize)
        ensures
            p == self@.2,
    {
        self.power
    }

    /// Whether both symbols name the same variable.
    pub fn name_equals(&self, other: &Symbol) -> (r: bool)
        ensures
            r == (self@.0 == other@.0),
    {
        self.name == other.name
    }

    pub fn set_power(&mut self, power: usize)
        ensures
            final(self)@ == (old(self)@.0, old(self)@.1, power as nat),
    {
        self.power = power;
    }
}

impl Clone for Symbol {
    fn clone(&self) -> (s: Symbol)
        ensures
            s@ == self@,
    {
        Symbol { name: self.name.clone(), index: self.index, power: self.power }
    }
}

impl PartialEq for Symbol {
    fn eq(&self, other: &Symbol) -> (r: bool) {
        self.name == other.name && self.index == other.index && self.power == other.power
    }
}

impl Eq for Symbol {
}

impl vstd::std_specs::cmp::PartialEqSpecImpl for Symbol {
    open spec fn obeys_eq_spec() -> bool {
        true
    }

    open spec fn eq_spec(&self, other: &Symbol) -> bool {
        self@ == other@
    }
}

} // verus!
