//! Names of agents, actions and locations.

use vstd::prelude::*;

verus! {

/// A name. Two symbols stand for the same thing when their texts are
/// equal.
#[derive(PartialEq, Eq, Hash, PartialOrd, Ord, Debug)]
pub struct Symbol(pub String);

impl View for Symbol {
    type V = Seq<char>;

    open spec fn view(&self) -> Seq<char> {
        self.0@
    }
}

impl Clone for Symbol {
    fn clone(&self) -> (r: Self)
        ensures r@ == self@,
    {
        Symbol(self.0.clone())
    }
}

impl Symbol {
    /// Whether the two names are the same.
    pub fn same(&self, other: &Symbol) -> (r: bool)
        ensures r == (self@ == other@),
    {
        self.0 == other.0
    }

    /// A copy of the name.
    pub fn copy(&self) -> (r: Symbol)
        ensures r@ == self@,
    {
        Symbol(self.0.clone())
    }

    /// The text of the name.
    pub fn as_str(&self) -> (r: &str)
        ensures r@ == self@,
    {
        self.0.as_str()
    }
}

/// `String::from_iter` over the characters of `v`: the string of those
/// characters.
#[verifier::external_body]
pub(crate) fn string_from_chars(v: &Vec<char>) -> (r: String)
    ensures r@ == v@,
{
    v.iter().collect()
}

/// The symbol for the characters `v`.
pub fn symbol_from_chars(v: &Vec<char>) -> (r: Symbol)
    ensures r@ == v@,
{
    Symbol(string_from_chars(v))
}

/// The symbol for the text `s`.
pub fn intern(s: &str) -> (r: Symbol)
    ensures r@ == s@,
{
    Symbol(s.to_owned())
}

/// The position of `x` in `names`, if any.
pub fn find_symbol(names: &Vec<Symbol>, x: &Symbol) -> (r: Option<usize>)
    ensures
        match r {
            Some(k) => k < names@.len() && names@[k as int]@ == x@
                && forall|j: int| 0 <= j < k ==> names@[j]@ != x@,
            None => forall|j: int| 0 <= j < names@.len() ==> names@[j]@ != x@,
        },
{
    let mut k: usize = 0;
    while k < names.len()
        invariant
            k <= names@.len(),
            forall|j: int| 0 <= j < k ==> names@[j]@ != x@,
        decreases names@.len() - k,
    {
        if names[k].same(x) {
            return Some(k);
        }
        k = k + 1;
    }
    None
}

} // verus!
