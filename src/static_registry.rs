//! An append-only list of nodes that are registered once and read in bulk.
use vstd::prelude::*;

verus! {

/// An append-only registry of nodes, kept in the order of registration.
pub struct StaticRegistry<T: Sync + 'static> {
    nodes: Vec<T>,
}

impl<T: Sync + 'static> StaticRegistry<T> {
    /// The registered nodes, oldest first.
    pub closed spec fn nodes(&self) -> Seq<T> {
        self.nodes@
    }

    /// A registry with no nodes.
    pub fn new() -> (r: Self)
        ensures
            r.nodes() == Seq::<T>::empty(),
    {
        StaticRegistry { nodes: Vec::new() }
    }

    /// Appends `node`.
    pub fn register(&mut self, node: T)
        ensures
            final(self).nodes() == old(self).nodes().push(node),
    {
        self.nodes.push(node);
    }

    /// Hands the registered nodes, oldest first, to `f` and returns what it returns.
    pub fn with_nodes<F, R>(&self, f: F) -> (r: R) where F: FnOnce(&Vec<T>) -> R
        requires
            forall|v: &Vec<T>| v@ == self.nodes() ==> call_requires(f, (v,)),
        ensures
            exists|v: &Vec<T>| v@ == self.nodes() && call_ensures(f, (v,), r),
    {
        let r = f(&self.nodes);
        assert(self.nodes@ == self.nodes() && call_ensures(f, (&self.nodes,), r));
        r
    }
}

} // verus!
