//! Properties: the two ways of addressing a slot inside a composite object,
//! either by key (for maps) or by index (for sequences).

use vstd::prelude::*;

verus! {

/// An address of a slot within a composite object: a named property of a map
/// or a position in a sequence.
#[derive(Clone, Debug)]
pub enum Prop {
    Key(String),
    Index(usize),
}

/// The mathematical form of a [`Prop`].
pub enum PropM {
    Key(Seq<char>),
    Index(int),
}

impl View for Prop {
    type V = PropM;

    open spec fn view(&self) -> PropM {
        match self {
            Prop::Key(k) => PropM::Key(k@),
            Prop::Index(i) => PropM::Index(*i as int),
        }
    }
}

impl Prop {
    /// A property naming the given map key.
    pub fn key(k: &str) -> (r: Prop)
        ensures
            r@ == PropM::Key(k@),
    {
        Prop::Key(k.to_owned())
    }

    /// A property naming the given sequence index.
    pub fn index(i: usize) -> (r: Prop)
        ensures
            r@ == PropM::Index(i as int),
    {
        Prop::Index(i)
    }

    pub fn clone_prop(&self) -> (r: Prop)
        ensures
            r@ == self@,
    {
        match self {
            Prop::Key(k) => Prop::Key(clone_string(k)),
            Prop::Index(i) => Prop::Index(*i),
        }
    }
}

/// Clone a string, keeping its characters.
pub fn clone_string(s: &String) -> (r: String)
    ensures
        r@ == s@,
{
    s.as_str().to_owned()
}

} // verus!
