//! Enumeration of everything a trie stores.

use crate::bits::with_bit;
use crate::node::Node;
use crate::paths::weight;
use crate::paths::lemma_descend_bounded;
use crate::storage::HashTreeStorage;
use crate::trie::HashTrie;
use crate::walk::{all_apart, apart, child_frame, frame_ok, load, pending, root_frame, stack_ok, under, Frame};
use crate::walk::{lemma_all_apart_child, lemma_child_frame, lemma_children_apart, lemma_not_pending, lemma_pop, lemma_push, lemma_push_ok, lemma_root_frame, lemma_under_children, lemma_under_leaf, lemma_weight};
use vstd::prelude::*;

verus! {

/// A traversal that yields every stored fingerprint once, in no particular
/// order. It walks depth first with a stack of its own: at a node with two
/// children it puts the one-branch aside and goes down the zero-branch.
pub struct HashIter<'a, S: HashTreeStorage> {
    trie: &'a HashTrie<S>,
    branches: Vec<(u64, u8, u32)>,
}

/// The frame that a stack entry stands for.
pub open spec fn entry_frame(entry: (u64, u8, u32)) -> Frame {
    Frame { prefix: entry.0, pos: entry.1 as nat, node: entry.2 as int }
}

impl<'a, S: HashTreeStorage> HashIter<'a, S> {
    /// The trie that is being enumerated.
    pub closed spec fn trie(&self) -> HashTrie<S> {
        *self.trie
    }

    /// The stack, as frames.
    pub closed spec fn frames(&self) -> Seq<Frame> {
        Seq::new(self.branches@.len(), |i: int| entry_frame(self.branches@[i]))
    }

    /// The stack names subtrees of the trie that have nothing in common.
    pub closed spec fn wf(&self) -> bool {
        &&& self.trie.walkable()
        &&& stack_ok(self.trie.nodes(), self.frames())
    }

    /// The fingerprints that have not been yielded yet.
    pub closed spec fn remaining(&self) -> Set<u64> {
        pending(self.trie.nodes(), self.frames())
    }

    /// An upper bound on the work that is left; it falls with every item.
    pub closed spec fn steps_left(&self) -> nat {
        load(self.trie.nodes(), self.frames())
    }

    /// Starts an enumeration of `trie`.
    pub fn new(trie: &'a HashTrie<S>) -> (it: Self)
        requires
            trie.walkable(),
        ensures
            it.wf(),
            it.trie() == *trie,
            it.remaining() == trie@,
    {
        let mut branches: Vec<(u64, u8, u32)> = Vec::new();
        branches.push((0, 0, 0));
        let it = HashIter { trie, branches };
        proof {
            lemma_root_frame(trie.nodes());
            assert(it.frames() =~= seq![root_frame()]);
        }
        it
    }

    /// Yields a fingerprint that has not been yielded yet, or `None` when
    /// none is left.
    pub fn next(&mut self) -> (item: Option<u64>)
        requires
            old(self).wf(),
        ensures
            final(self).wf(),
            final(self).trie() == old(self).trie(),
            match item {
                Some(h) => old(self).remaining().contains(h) && final(self).remaining() == old(
                    self,
                ).remaining().remove(h) && final(self).steps_left() < old(self).steps_left(),
                None => old(self).remaining() == Set::<u64>::empty() && final(self).remaining()
                    == Set::<u64>::empty(),
            },
    {
        let ghost nodes = self.trie.nodes();
        loop
            invariant
                self.wf(),
                self.trie == old(self).trie,
                nodes == self.trie.nodes(),
                self.remaining() == old(self).remaining(),
                self.steps_left() <= old(self).steps_left(),
            decreases self.steps_left(),
        {
            let ghost stacked = self.frames();
            let top: Option<(u64, u8, u32)> = self.branches.pop();
            if top.is_none() {
                assert(stacked.len() == 0);
                return None;
            }
            let (first_hash, first_pos, first_node) = top.unwrap();
            let mut hash: u64 = first_hash;
            let mut pos: u8 = first_pos;
            let mut node: u32 = first_node;
            let mut alive: bool = true;
            proof {
                lemma_pop(nodes, stacked);
                assert(self.frames() =~= stacked.drop_last());
                assert(stacked.last() == entry_frame((hash, pos, node)));
            }
            while pos < 64 && alive
                invariant
                    pos <= 64,
                    self.trie == old(self).trie,
                    nodes == self.trie.nodes(),
                    self.trie.walkable(),
                    stack_ok(nodes, self.frames()),
                    alive ==> frame_ok(nodes, entry_frame((hash, pos, node))),
                    alive ==> all_apart(self.frames(), entry_frame((hash, pos, node))),
                    alive ==> under(nodes, entry_frame((hash, pos, node))) + pending(
                        nodes,
                        self.frames(),
                    ) == old(self).remaining(),
                    alive ==> load(nodes, self.frames()) + weight(
                        nodes,
                        node as int,
                        pos as nat,
                    ) <= load(nodes, stacked),
                    !alive ==> pending(nodes, self.frames()) == old(self).remaining(),
                    !alive ==> load(nodes, self.frames()) < load(nodes, stacked),
                decreases 64 - pos + (if alive { 1int } else { 0int }),
            {
                let ghost cur = entry_frame((hash, pos, node));
                let ghost rest = self.frames();
                proof {
                    lemma_descend_bounded(nodes, hash, pos as nat);
                    lemma_under_children(nodes, cur);
                    lemma_weight(nodes, cur);
                }
                let n: Node = self.trie.haystack.get(node);
                if n.is_leaf() {
                    alive = false;
                    proof {
                        assert(pending(nodes, rest) =~= old(self).remaining());
                    }
                } else if n.one == 0 {
                    proof {
                        lemma_child_frame(nodes, cur, false);
                        lemma_all_apart_child(nodes, rest, cur, false);
                        assert(under(nodes, child_frame(nodes, cur, false)) =~= under(nodes, cur));
                    }
                    node = n.zero;
                    pos = pos + 1;
                } else if n.zero == 0 {
                    proof {
                        lemma_child_frame(nodes, cur, true);
                        lemma_all_apart_child(nodes, rest, cur, true);
                        assert(under(nodes, child_frame(nodes, cur, true)) =~= under(nodes, cur));
                    }
                    hash = with_bit(hash, pos);
                    node = n.one;
                    pos = pos + 1;
                } else {
                    let aside: u64 = with_bit(hash, pos);
                    self.branches.push((aside, pos + 1, n.one));
                    proof {
                        let f0 = child_frame(nodes, cur, false);
                        let f1 = child_frame(nodes, cur, true);
                        assert(f1 == entry_frame((aside, (pos + 1) as u8, n.one)));
                        lemma_child_frame(nodes, cur, false);
                        lemma_child_frame(nodes, cur, true);
                        lemma_all_apart_child(nodes, rest, cur, false);
                        lemma_all_apart_child(nodes, rest, cur, true);
                        lemma_children_apart(nodes, cur, false);
                        lemma_push_ok(nodes, rest, f1);
                        lemma_push(nodes, rest, f1);
                        assert(self.frames() =~= rest.push(f1));
                        assert(all_apart(self.frames(), f0)) by {
                            assert forall|i: int| 0 <= i < self.frames().len() implies apart(
                                #[trigger] self.frames()[i],
                                f0,
                            ) by {
                                if i < rest.len() {
                                    assert(self.frames()[i] == rest[i]);
                                }
                            }
                        }
                        assert(under(nodes, f0) + pending(nodes, self.frames()) =~= under(
                            nodes,
                            cur,
                        ) + pending(nodes, rest));
                    }
                    node = n.zero;
                    pos = pos + 1;
                }
            }
            if alive {
                proof {
                    let cur = entry_frame((hash, pos, node));
                    lemma_under_leaf(nodes, cur);
                    lemma_not_pending(nodes, self.frames(), cur, hash);
                    assert(old(self).remaining().contains(hash));
                    assert(self.remaining() =~= old(self).remaining().remove(hash));
                }
                return Some(hash);
            }
        }
    }

    /// Runs the enumeration to its end and returns what it yields.
    pub fn collect(self) -> (all: Vec<u64>)
        requires
            self.wf(),
        ensures
            all@.no_duplicates(),
            all@.to_set() == self.remaining(),
    {
        broadcast use vstd::seq_lib::group_seq_properties;

        let mut it = self;
        let mut all: Vec<u64> = Vec::new();
        loop
            invariant
                it.wf(),
                all@.no_duplicates(),
                all@.to_set() + it.remaining() == self.remaining(),
                all@.to_set().disjoint(it.remaining()),
            decreases it.steps_left(),
        {
            let ghost before = it.remaining();
            let ghost had = all@;
            let item: Option<u64> = it.next();
            if item.is_none() {
                assert(all@.to_set() =~= self.remaining());
                return all;
            }
            let h: u64 = item.unwrap();
            all.push(h);
            proof {
                assert(!had.to_set().contains(h));
                assert(!had.contains(h));
                had.lemma_push_to_set_commute(h);
                assert(all@ == had.push(h));
                assert(all@.to_set() + it.remaining() =~= had.to_set() + before);
            }
        }
    }
}

} // verus!
