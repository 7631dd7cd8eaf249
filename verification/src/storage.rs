//! The node table behind a trie, and its in-memory form.
//!
//! A storage holds a growable sequence of nodes that are addressed by
//! position only. Position 0 is the root. Nodes are handed out and taken by
//! value, so nothing a caller holds can go stale when the table grows.

use crate::node::Node;
use crate::node::u32ize;
use vstd::prelude::*;

verus! {

/// A growable table of trie nodes.
pub trait HashTreeStorage: Sized {
    /// What a storage is made from.
    type Data;

    /// The nodes held, in table order. Every storage that is verified says
    /// here what it holds: of the table that stands here nothing is known,
    /// so that with it no method of the storage can be proved. It stands
    /// here for storages that are written without a verifier.
    open spec fn nodes(&self) -> Seq<Node> {
        arbitrary()
    }

    /// The configurations from which a storage can be made: all of them,
    /// unless the storage says otherwise.
    open spec fn accepts(data: Self::Data) -> bool {
        true
    }

    /// Whether `nodes` is a table that a storage made from `data` may start
    /// with: any table, unless the storage says more.
    open spec fn opens(data: Self::Data, nodes: Seq<Node>) -> bool {
        true
    }

    /// Makes the storage; the table it starts with has a root.
    fn new(data: Self::Data) -> (store: Self)
        requires
            Self::accepts(data),
        ensures
            Self::opens(data, store.nodes()),
            1 <= store.nodes().len() <= u32::MAX,
    ;

    /// The node at `index`.
    fn get(&self, index: u32) -> (node: Node)
        requires
            index < self.nodes().len(),
        ensures
            node == self.nodes()[index as int],
    ;

    /// Replaces the node at `index`.
    fn set(&mut self, index: u32, node: Node)
        requires
            index < old(self).nodes().len(),
        ensures
            final(self).nodes() == old(self).nodes().update(index as int, node),
    ;

    /// Appends `node` and returns its index, which is the length before
    /// the call.
    fn push(&mut self, node: Node) -> (index: u32)
        requires
            old(self).nodes().len() < u32::MAX,
        ensures
            index == old(self).nodes().len(),
            final(self).nodes() == old(self).nodes().push(node),
    ;

    /// Number of nodes held.
    fn len(&self) -> (n: u32)
        requires
            self.nodes().len() <= u32::MAX,
        ensures
            n == self.nodes().len(),
    ;

    /// Whether no node is held.
    fn is_empty(&self) -> (b: bool)
        requires
            self.nodes().len() <= u32::MAX,
        ensures
            b == (self.nodes().len() == 0),
    {
        self.len() == 0
    }
}

impl HashTreeStorage for Vec<Node> {
    type Data = ();

    open spec fn nodes(&self) -> Seq<Node> {
        self@
    }

    open spec fn accepts(data: ()) -> bool {
        true
    }

    open spec fn opens(data: (), nodes: Seq<Node>) -> bool {
        nodes == seq![Node { zero: 0, one: 0 }]
    }

    fn new(_data: ()) -> (store: Self) {
        let mut store: Vec<Node> = Vec::new();
        store.push(Node { zero: 0, one: 0 });
        assert(store@ =~= seq![Node { zero: 0, one: 0 }]);
        store
    }

    fn get(&self, index: u32) -> (node: Node) {
        self[index as usize]
    }

    fn set(&mut self, index: u32, node: Node) {
        self[index as usize] = node;
    }

    fn push(&mut self, node: Node) -> (index: u32) {
        let index: u32 = u32ize(self.len());
        self.push(node);
        index
    }

    fn len(&self) -> (n: u32) {
        u32ize(self.len())
    }
}

} // verus!
