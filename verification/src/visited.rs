//! The set of nodes that a search has looked at.

use vstd::prelude::*;

verus! {

/// A set of the nodes of a graph.
pub struct VisitedSet {
    marks: Vec<bool>,
}

impl View for VisitedSet {
    type V = Set<usize>;

    closed spec fn view(&self) -> Set<usize> {
        Set::new(|v: usize| v < self.marks@.len() && self.marks@[v as int])
    }
}

impl VisitedSet {
    /// The nodes that the set can hold are numbered from 0 up to this.
    pub closed spec fn capacity(&self) -> nat {
        self.marks@.len()
    }

    /// An empty set of nodes below `n`.
    pub fn new(n: usize) -> (set: Self)
        ensures
            set.capacity() == n,
            set@ == Set::<usize>::empty(),
    {
        let set = VisitedSet { marks: vec![false; n] };
        assert(set@ =~= Set::<usize>::empty());
        set
    }

    /// Whether a node is in the set.
    pub fn contains(&self, v: usize) -> (b: bool)
        requires
            v < self.capacity(),
        ensures
            b == self@.contains(v),
    {
        self.marks[v]
    }

    /// Adds a node.
    pub fn insert(&mut self, v: usize)
        requires
            v < old(self).capacity(),
        ensures
            final(self).capacity() == old(self).capacity(),
            final(self)@ == old(self)@.insert(v),
    {
        self.marks.set(v, true);
        assert(self@ =~= old(self)@.insert(v));
    }
}

} // verus!
