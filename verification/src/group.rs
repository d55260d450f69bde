//! Groups of sub-objects.

use vstd::prelude::*;

verus! {

/// A group of multiple sub-objects.
pub struct Group<T> {
    children: Vec<T>,
}

impl<T> Group<T> {
    /// The children of the group, in the order they were given.
    pub closed spec fn spec_children(&self) -> Seq<T> {
        self.children@
    }

    pub fn new(children: Vec<T>) -> (g: Self)
        ensures
            g.spec_children() == children@,
    {
        Group { children }
    }

    pub fn children(&self) -> (c: &Vec<T>)
        ensures
            c@ == self.spec_children(),
    {
        &self.children
    }
}

} // verus!
