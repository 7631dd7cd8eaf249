//! Search for the stored fingerprints near a given one.

use crate::bits::{bit, differing, get_bit, hamming, low_bits, with_bit};
use crate::bits::{lemma_differing_grows, lemma_differing_prefix, lemma_hamming_range};
use crate::node::Node;
use crate::paths::weight;
use crate::paths::lemma_descend_bounded;
use crate::storage::HashTreeStorage;
use crate::trie::HashTrie;
use crate::walk::{all_apart, apart, child_frame, extend, frame_ok, load, pending, root_frame, stack_ok, under, Frame};
use crate::walk::{lemma_all_apart_child, lemma_child_frame, lemma_children_apart, lemma_extend, lemma_not_pending, lemma_pop, lemma_push, lemma_push_ok, lemma_root_frame, lemma_under_children, lemma_under_leaf, lemma_weight};
use vstd::prelude::*;

verus! {

/// The members of `stored` whose Hamming distance to `needle` is at most
/// `max_distance`.
pub open spec fn within(stored: Set<u64>, needle: u64, max_distance: nat) -> Set<u64> {
    Set::new(|h: u64| stored.contains(h) && hamming(h, needle) <= max_distance)
}

/// A budget of zero admits the needle alone, and only if it is stored.
pub proof fn lemma_within_zero(stored: Set<u64>, needle: u64)
    ensures
        within(stored, needle, 0) == if stored.contains(needle) {
            set![needle]
        } else {
            Set::<u64>::empty()
        },
{
    let exact = if stored.contains(needle) {
        set![needle]
    } else {
        Set::<u64>::empty()
    };
    assert forall|h: u64| within(stored, needle, 0).contains(h) == exact.contains(h) by {
        lemma_hamming_range(h, needle);
    }
    assert(within(stored, needle, 0) =~= exact);
}

/// A budget of 64 or more admits everything that is stored.
pub proof fn lemma_within_all(stored: Set<u64>, needle: u64, max_distance: nat)
    requires
        max_distance >= 64,
    ensures
        within(stored, needle, max_distance) == stored,
{
    assert forall|h: u64| within(stored, needle, max_distance).contains(h) == stored.contains(
        h,
    ) by {
        lemma_hamming_range(h, needle);
    }
    assert(within(stored, needle, max_distance) =~= stored);
}

/// A subtree put aside: the bits of the path to it, its depth, how many of
/// those bits differ from the needle, and the index of its root.
struct SimilarBranch {
    hash: u64,
    pos: u8,
    distance: u8,
    node: u32,
}

/// A traversal that yields, once each and in no particular order, the stored
/// fingerprints whose Hamming distance to a needle is within a budget. It
/// walks depth first and leaves a path as soon as the bits taken so far
/// differ from the needle in more positions than the budget allows.
pub struct Similar<'a, S: HashTreeStorage> {
    trie: &'a HashTrie<S>,
    needle: u64,
    max_distance: u8,
    branches: Vec<SimilarBranch>,
}

/// The frame that a stack entry stands for.
spec fn branch_frame(branch: SimilarBranch) -> Frame {
    Frame { prefix: branch.hash, pos: branch.pos as nat, node: branch.node as int }
}

/// The cost that a stack entry carries is the number of positions in which
/// its path differs from the needle, and is within the budget.
spec fn cost_ok(branch: SimilarBranch, needle: u64, max_distance: u8) -> bool {
    &&& branch.distance == differing(branch.hash, needle, branch.pos as nat)
    &&& branch.distance <= max_distance
}

/// The cost along a path grows by one with each bit that differs from the
/// needle's.
proof fn lemma_child_cost(prefix: u64, pos: nat, b: bool, needle: u64)
    requires
        pos < 64,
        low_bits(prefix, pos) == prefix,
    ensures
        differing(extend(prefix, pos, b), needle, pos + 1) == differing(prefix, needle, pos) + (if b
            != bit(needle, pos) {
            1nat
        } else {
            0nat
        }),
{
    let e = extend(prefix, pos, b);
    lemma_extend(prefix, pos, b, e);
    lemma_differing_prefix(e, prefix, needle, pos);
}

/// Below a frame whose path is already over the budget, nothing is within it.
proof fn lemma_over_budget(nodes: Seq<Node>, f: Frame, needle: u64, max_distance: nat, h: u64)
    requires
        frame_ok(nodes, f),
        differing(f.prefix, needle, f.pos) > max_distance,
        under(nodes, f).contains(h),
    ensures
        hamming(h, needle) > max_distance,
{
    lemma_differing_prefix(h, f.prefix, needle, f.pos);
    lemma_differing_grows(h, needle, f.pos, 64);
}

impl<'a, S: HashTreeStorage> Similar<'a, S> {
    /// The trie that is being searched.
    pub closed spec fn trie(&self) -> HashTrie<S> {
        *self.trie
    }

    /// The fingerprint searched for.
    pub closed spec fn needle(&self) -> u64 {
        self.needle
    }

    /// The largest Hamming distance at which a fingerprint is still yielded.
    pub closed spec fn max_distance(&self) -> u8 {
        self.max_distance
    }

    /// The stack, as frames.
    pub closed spec fn frames(&self) -> Seq<Frame> {
        Seq::new(self.branches@.len(), |i: int| branch_frame(self.branches@[i]))
    }

    /// The stack names subtrees of the trie that have nothing in common, and
    /// each entry carries the true cost of its path.
    pub closed spec fn wf(&self) -> bool {
        &&& self.trie.walkable()
        &&& stack_ok(self.trie.nodes(), self.frames())
        &&& forall|i: int|
            0 <= i < self.branches@.len() ==> cost_ok(
                #[trigger] self.branches@[i],
                self.needle,
                self.max_distance,
            )
    }

    /// The fingerprints that have not been yielded yet.
    pub closed spec fn remaining(&self) -> Set<u64> {
        within(pending(self.trie.nodes(), self.frames()), self.needle, self.max_distance as nat)
    }

    /// An upper bound on the work that is left; it falls with every item.
    pub closed spec fn steps_left(&self) -> nat {
        load(self.trie.nodes(), self.frames())
    }

    /// Starts a search of `trie` for what lies within `max_distance` of `needle`.
    pub fn new(trie: &'a HashTrie<S>, needle: u64, max_distance: u8) -> (it: Self)
        requires
            trie.walkable(),
        ensures
            it.wf(),
            it.trie() == *trie,
            it.needle() == needle,
            it.max_distance() == max_distance,
            it.remaining() == within(trie@, needle, max_distance as nat),
    {
        let mut branches: Vec<SimilarBranch> = Vec::new();
        branches.push(SimilarBranch { hash: 0, pos: 0, distance: 0, node: 0 });
        let it = Similar { trie, needle, max_distance, branches };
        proof {
            lemma_root_frame(trie.nodes());
            assert(it.frames() =~= seq![root_frame()]);
        }
        it
    }

    /// Yields a fingerprint within the budget that has not been yielded yet,
    /// or `None` when none is left.
    pub fn next(&mut self) -> (item: Option<u64>)
        requires
            old(self).wf(),
        ensures
            final(self).wf(),
            final(self).trie() == old(self).trie(),
            final(self).needle() == old(self).needle(),
            final(self).max_distance() == old(self).max_distance(),
            match item {
                Some(h) => old(self).remaining().contains(h) && final(self).remaining() == old(
                    self,
                ).remaining().remove(h) && final(self).steps_left() < old(self).steps_left(),
                None => old(self).remaining() == Set::<u64>::empty() && final(self).remaining()
                    == Set::<u64>::empty(),
            },
    {
        let ghost nodes = self.trie.nodes();
        let ghost needle = self.needle;
        let ghost budget = self.max_distance as nat;
        loop
            invariant
                self.wf(),
                self.trie == old(self).trie,
                self.needle == old(self).needle,
                self.max_distance == old(self).max_distance,
                nodes == self.trie.nodes(),
                needle == self.needle,
                budget == self.max_distance as nat,
                self.remaining() == old(self).remaining(),
                self.steps_left() <= old(self).steps_left(),
            decreases self.steps_left(),
        {
            let ghost stacked = self.frames();
            let ghost costs = self.branches@;
            let top: Option<SimilarBranch> = self.branches.pop();
            if top.is_none() {
                assert(stacked.len() == 0);
                assert(self.remaining() =~= Set::<u64>::empty());
                return None;
            }
            let branch: SimilarBranch = top.unwrap();
            let mut hash: u64 = branch.hash;
            let mut pos: u8 = branch.pos;
            let mut distance: u8 = branch.distance;
            let mut node: u32 = branch.node;
            let mut alive: bool = true;
            proof {
                lemma_pop(nodes, stacked);
                assert(self.frames() =~= stacked.drop_last());
                assert(branch == costs[costs.len() - 1]);
                assert(stacked.last() == branch_frame(branch));
                assert forall|i: int| 0 <= i < self.branches@.len() implies cost_ok(
                    #[trigger] self.branches@[i],
                    needle,
                    self.max_distance,
                ) by {
                    assert(self.branches@[i] == costs[i]);
                }
            }
            while pos < 64 && alive
                invariant
                    pos <= 64,
                    self.trie == old(self).trie,
                    self.needle == old(self).needle,
                    self.max_distance == old(self).max_distance,
                    nodes == self.trie.nodes(),
                    needle == self.needle,
                    budget == self.max_distance as nat,
                    self.trie.walkable(),
                    stack_ok(nodes, self.frames()),
                    forall|i: int|
                        0 <= i < self.branches@.len() ==> cost_ok(
                            #[trigger] self.branches@[i],
                            needle,
                            self.max_distance,
                        ),
                    alive ==> frame_ok(
                        nodes,
                        Frame { prefix: hash, pos: pos as nat, node: node as int },
                    ),
                    alive ==> all_apart(
                        self.frames(),
                        Frame { prefix: hash, pos: pos as nat, node: node as int },
                    ),
                    alive ==> distance == differing(hash, needle, pos as nat) && distance
                        <= budget,
                    alive ==> within(
                        under(nodes, Frame { prefix: hash, pos: pos as nat, node: node as int })
                            + pending(nodes, self.frames()),
                        needle,
                        budget,
                    ) == old(self).remaining(),
                    alive ==> load(nodes, self.frames()) + weight(
                        nodes,
                        node as int,
                        pos as nat,
                    ) <= load(nodes, stacked),
                    !alive ==> within(pending(nodes, self.frames()), needle, budget) == old(
                        self,
                    ).remaining(),
                    !alive ==> load(nodes, self.frames()) < load(nodes, stacked),
                decreases 64 - pos + (if alive { 1int } else { 0int }),
            {
                let ghost cur = Frame { prefix: hash, pos: pos as nat, node: node as int };
                let ghost rest = self.frames();
                let ghost kept = self.branches@;
                proof {
                    lemma_descend_bounded(nodes, hash, pos as nat);
                    lemma_under_children(nodes, cur);
                    lemma_weight(nodes, cur);
                }
                let n: Node = self.trie.haystack.get(node);
                let needle_bit: bool = get_bit(self.needle, pos);
                if n.is_leaf() {
                    alive = false;
                    proof {
                        assert(within(pending(nodes, rest), needle, budget) =~= old(
                            self,
                        ).remaining());
                    }
                } else if n.zero == 0 || n.one == 0 {
                    let only: bool = n.zero == 0;
                    let ghost child = child_frame(nodes, cur, only);
                    proof {
                        lemma_child_frame(nodes, cur, only);
                        lemma_all_apart_child(nodes, rest, cur, only);
                        lemma_child_cost(hash, pos as nat, only, needle);
                        assert(under(nodes, child) =~= under(nodes, cur));
                    }
                    if only != needle_bit {
                        if distance < self.max_distance {
                            distance = distance + 1;
                        } else {
                            alive = false;
                            proof {
                                assert forall|h: u64| under(nodes, child).contains(h) implies hamming(
                                    h,
                                    needle,
                                ) > budget by {
                                    lemma_over_budget(nodes, child, needle, budget, h);
                                }
                                assert(within(pending(nodes, rest), needle, budget) =~= old(
                                    self,
                                ).remaining());
                            }
                        }
                    }
                    if alive {
                        if only {
                            hash = with_bit(hash, pos);
                        }
                        node = n.branch(only);
                        pos = pos + 1;
                    }
                } else {
                    let ghost near = child_frame(nodes, cur, needle_bit);
                    let ghost far = child_frame(nodes, cur, !needle_bit);
                    proof {
                        lemma_child_frame(nodes, cur, needle_bit);
                        lemma_child_frame(nodes, cur, !needle_bit);
                        lemma_all_apart_child(nodes, rest, cur, needle_bit);
                        lemma_all_apart_child(nodes, rest, cur, !needle_bit);
                        lemma_children_apart(nodes, cur, needle_bit);
                        lemma_child_cost(hash, pos as nat, needle_bit, needle);
                        lemma_child_cost(hash, pos as nat, !needle_bit, needle);
                    }
                    if distance < self.max_distance {
                        let aside: u64 = if needle_bit {
                            hash
                        } else {
                            with_bit(hash, pos)
                        };
                        let put: SimilarBranch = SimilarBranch {
                            hash: aside,
                            pos: pos + 1,
                            distance: distance + 1,
                            node: n.branch(!needle_bit),
                        };
                        self.branches.push(put);
                        proof {
                            assert(far == branch_frame(put));
                            lemma_push_ok(nodes, rest, far);
                            lemma_push(nodes, rest, far);
                            assert(self.frames() =~= rest.push(far));
                            assert(all_apart(self.frames(), near)) by {
                                assert forall|i: int| 0 <= i < self.frames().len() implies apart(
                                    #[trigger] self.frames()[i],
                                    near,
                                ) by {
                                    if i < rest.len() {
                                        assert(self.frames()[i] == rest[i]);
                                    }
                                }
                            }
                            assert forall|i: int| 0 <= i < self.branches@.len() implies cost_ok(
                                #[trigger] self.branches@[i],
                                needle,
                                self.max_distance,
                            ) by {
                                if i < kept.len() {
                                    assert(self.branches@[i] == kept[i]);
                                }
                            }
                            assert(under(nodes, near) + pending(nodes, self.frames()) =~= under(
                                nodes,
                                cur,
                            ) + pending(nodes, rest));
                        }
                    } else {
                        proof {
                            assert forall|h: u64| under(nodes, far).contains(h) implies hamming(
                                h,
                                needle,
                            ) > budget by {
                                lemma_over_budget(nodes, far, needle, budget, h);
                            }
                            assert(within(under(nodes, near) + pending(nodes, rest), needle, budget)
                                =~= within(under(nodes, cur) + pending(nodes, rest), needle, budget));
                        }
                    }
                    if needle_bit {
                        hash = with_bit(hash, pos);
                    }
                    node = n.branch(needle_bit);
                    pos = pos + 1;
                }
            }
            if alive {
                proof {
                    let cur = Frame { prefix: hash, pos: pos as nat, node: node as int };
                    lemma_under_leaf(nodes, cur);
                    lemma_not_pending(nodes, self.frames(), cur, hash);
                    assert(old(self).remaining().contains(hash));
                    assert(self.remaining() =~= old(self).remaining().remove(hash));
                }
                return Some(hash);
            }
        }
    }

    /// Runs the search to its end and returns what it yields.
    pub fn collect(self) -> (all: Vec<u64>)
        requires
            self.wf(),
        ensures
            all@.no_duplicates(),
            all@.to_set() == self.remaining(),
    {
        broadcast use vstd::seq_lib::group_seq_properties;

        let mut it = self;
        let mut all: Vec<u64> = Vec::new();
        loop
            invariant
                it.wf(),
                all@.no_duplicates(),
                all@.to_set() + it.remaining() == self.remaining(),
                all@.to_set().disjoint(it.remaining()),
            decreases it.steps_left(),
        {
            let ghost before = it.remaining();
            let ghost had = all@;
            let item: Option<u64> = it.next();
            if item.is_none() {
                assert(all@.to_set() =~= self.remaining());
                return all;
            }
            let h: u64 = item.unwrap();
            all.push(h);
            proof {
                assert(!had.to_set().contains(h));
                assert(!had.contains(h));
                had.lemma_push_to_set_commute(h);
                assert(all@ == had.push(h));
                assert(all@.to_set() + it.remaining() =~= had.to_set() + before);
            }
        }
    }
}

} // verus!
