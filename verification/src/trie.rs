//! The trie: insertion and exact-path search over a node storage.

use crate::bits::{bit, get_bit};
use crate::growth::{completed, inserted, planted};
use crate::growth::lemma_planted;
use crate::iter::HashIter;
use crate::node::Node;
use crate::paths::{bounded, contents, descend, matched, tree_shaped};
use crate::paths::{lemma_descend_bounded, lemma_descend_ends, lemma_matched_is};
use crate::paths::{lemma_slot_outside, lemma_slot_shared, lemma_slots_tree, slot_child};
use crate::similar::{within, Similar};
use crate::storage::HashTreeStorage;
use vstd::prelude::*;

verus! {

/// A set of 64-bit fingerprints, kept as a binary trie in a node storage.
pub struct HashTrie<S: HashTreeStorage> {
    pub haystack: S,
}

impl<S: HashTreeStorage> View for HashTrie<S> {
    type V = Set<u64>;

    /// The set of stored fingerprints.
    open spec fn view(&self) -> Set<u64> {
        contents(self.haystack.nodes())
    }
}

impl<S: HashTreeStorage> HashTrie<S> {
    /// The node table of the trie.
    pub open spec fn nodes(&self) -> Seq<Node> {
        self.haystack.nodes()
    }

    /// The table can be walked: it has a root and no child index leaves it.
    pub open spec fn walkable(&self) -> bool {
        bounded(self.nodes())
    }

    /// The table can be walked and is a tree, so that it can grow.
    pub open spec fn wf(&self) -> bool {
        tree_shaped(self.nodes())
    }

    /// Makes a trie over a storage made from `data`.
    pub fn new(data: S::Data) -> (trie: Self)
        requires
            S::accepts(data),
        ensures
            S::opens(data, trie.nodes()),
            1 <= trie.nodes().len() <= u32::MAX,
    {
        HashTrie { haystack: S::new(data) }
    }

    /// Follows the path of `needle` from the root. Returns the position of
    /// the first bit for which the trie has no edge, or 64 if it has them
    /// all, together with the index of the node at which the walk ended.
    pub fn search(&self, needle: u64) -> (found: (u8, u32))
        requires
            self.walkable(),
        ensures
            found.0 <= 64,
            found.0 == matched(self.nodes(), needle),
            descend(self.nodes(), needle, found.0 as nat) == Some(found.1 as int),
            found.0 < 64 ==> self.nodes()[found.1 as int].child(bit(needle, found.0 as nat)) == 0,
            (found.0 == 64) == self@.contains(needle),
    {
        let mut index: u32 = 0;
        let mut pos: u8 = 0;
        while pos < 64
            invariant
                pos <= 64,
                self.walkable(),
                descend(self.nodes(), needle, pos as nat) == Some(index as int),
            decreases 64 - pos,
        {
            proof {
                lemma_descend_bounded(self.nodes(), needle, pos as nat);
            }
            let node: Node = self.haystack.get(index);
            let next: u32 = node.branch(get_bit(needle, pos));
            if next == 0 {
                proof {
                    assert(descend(self.nodes(), needle, (pos + 1) as nat) is None);
                    lemma_descend_ends(self.nodes(), needle, (pos + 1) as nat, 64);
                    lemma_matched_is(self.nodes(), needle, pos as nat);
                }
                return (pos, index);
            }
            index = next;
            pos = pos + 1;
        }
        proof {
            lemma_matched_is(self.nodes(), needle, 64);
        }
        (pos, index)
    }

    /// Stores `hash`. Returns whether it was stored already; if so nothing
    /// changes. Otherwise one node is appended for each bit of `hash` from
    /// the position at which its path left the trie.
    pub fn insert(&mut self, hash: u64) -> (existed: bool)
        requires
            old(self).wf(),
            old(self)@.contains(hash) || old(self).nodes().len() + 64 - matched(
                old(self).nodes(),
                hash,
            ) <= u32::MAX,
        ensures
            final(self).wf(),
            existed == old(self)@.contains(hash),
            final(self)@ == old(self)@.insert(hash),
            inserted(old(self).nodes(), hash, existed, final(self).nodes()),
    {
        let (start, first): (u8, u32) = self.search(hash);
        proof {
            lemma_planted(old(self).nodes(), hash);
            lemma_descend_bounded(old(self).nodes(), hash, start as nat);
        }
        if start == 64 {
            return true;
        }
        let mut index: u32 = first;
        let mut pos: u8 = start;
        while pos < 64
            invariant
                start <= pos <= 64,
                old(self).nodes().len() + 64 - start <= u32::MAX,
                self.nodes().len() == old(self).nodes().len() + pos - start,
                index < self.nodes().len(),
                planted(old(self).nodes(), hash) == completed(
                    self.nodes(),
                    hash,
                    pos as nat,
                    index as int,
                ),
            decreases 64 - pos,
        {
            let new_index: u32 = self.haystack.push(Node::default());
            let parent: Node = self.haystack.get(index);
            self.haystack.set(index, parent.linked(get_bit(hash, pos), new_index));
            index = new_index;
            pos = pos + 1;
        }
        false
    }

    /// Starts a search for the stored fingerprints whose Hamming distance
    /// to `needle` is at most `max_distance`. Every call starts afresh.
    pub fn similar(&self, needle: u64, max_distance: u8) -> (found: Similar<'_, S>)
        requires
            self.walkable(),
        ensures
            found.wf(),
            found.trie() == *self,
            found.needle() == needle,
            found.max_distance() == max_distance,
            found.remaining() == within(self@, needle, max_distance as nat),
    {
        Similar::new(self, needle, max_distance)
    }

    /// Starts an enumeration of the stored fingerprints.
    pub fn hashes(&self) -> (all: HashIter<'_, S>)
        requires
            self.walkable(),
        ensures
            all.wf(),
            all.trie() == *self,
            all.remaining() == self@,
    {
        HashIter::new(self)
    }

    /// Tells whether the table can be walked: whether it has a root and
    /// every child index lies inside it.
    pub fn is_walkable(&self) -> (ok: bool)
        requires
            self.nodes().len() <= u32::MAX,
        ensures
            ok == self.walkable(),
    {
        let len: u32 = self.haystack.len();
        if len == 0 {
            return false;
        }
        let mut index: u32 = 0;
        while index < len
            invariant
                index <= len,
                len == self.nodes().len(),
                forall|i: int|
                    0 <= i < index ==> (#[trigger] self.nodes()[i]).zero < len && self.nodes()[i].one
                        < len,
            decreases len - index,
        {
            let node: Node = self.haystack.get(index);
            if node.zero >= len || node.one >= len {
                return false;
            }
            index = index + 1;
        }
        true
    }

    /// Tells whether the table is a tree that can be walked and can grow:
    /// whether it has a root, every child index lies inside it, and no node
    /// is the child of two slots.
    pub fn is_well_formed(&self) -> (ok: bool)
        requires
            self.nodes().len() <= u32::MAX,
        ensures
            ok == self.wf(),
    {
        let len: u32 = self.haystack.len();
        if len == 0 {
            return false;
        }
        let ghost nodes = self.nodes();
        let mut seen: Vec<bool> = vec![false; len as usize];
        let ghost mut owner: Seq<int> = Seq::new(len as nat, |c: int| 0int);
        let slots: u64 = 2 * (len as u64);
        let mut slot: u64 = 0;
        while slot < slots
            invariant
                slot <= slots,
                slots == 2 * len,
                len == nodes.len(),
                nodes == self.nodes(),
                seen@.len() == len,
                owner.len() == len,
                forall|t: int| 0 <= t < slot ==> #[trigger] slot_child(nodes, t) < len,
                forall|c: int|
                    0 <= c < len && #[trigger] seen@[c] ==> 0 <= owner[c] < slot && slot_child(
                        nodes,
                        owner[c],
                    ) == c,
                forall|t: int|
                    0 <= t < slot && #[trigger] slot_child(nodes, t) != 0 ==> seen@[slot_child(
                        nodes,
                        t,
                    ) as int] && owner[slot_child(nodes, t) as int] == t,
            decreases slots - slot,
        {
            let node: Node = self.haystack.get((slot / 2) as u32);
            let child: u32 = node.branch(slot % 2 == 1);
            assert(child == slot_child(nodes, slot as int));
            if child != 0 {
                if child >= len {
                    proof {
                        lemma_slot_outside(nodes, slot as int);
                    }
                    return false;
                }
                if seen[child as usize] {
                    proof {
                        lemma_slot_shared(nodes, owner[child as int], slot as int);
                    }
                    return false;
                }
                seen[child as usize] = true;
                proof {
                    owner = owner.update(child as int, slot as int);
                }
            }
            slot = slot + 1;
        }
        proof {
            lemma_slots_tree(nodes);
        }
        true
    }
}

} // verus!
