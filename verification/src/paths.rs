//! What a node table means as a trie.
//!
//! A fingerprint is stored when its 64 bits, read from position 0 upwards,
//! name a path of 64 edges from the root. Everything here is stated over the
//! plain sequence of nodes, so it holds for every storage alike.

use crate::bits::{bit, low_bits};
use crate::bits::{lemma_low_bits_none, lemma_low_bits_same_bit, lemma_low_bits_shorter, lemma_low_bits_step};
use crate::node::Node;
use vstd::prelude::*;

verus! {

/// The table has a root, fits the 32-bit index space, and every child index
/// lies inside it.
pub open spec fn bounded(nodes: Seq<Node>) -> bool {
    &&& 1 <= nodes.len() <= u32::MAX
    &&& forall|i: int|
        0 <= i < nodes.len() ==> (#[trigger] nodes[i]).zero < nodes.len() && nodes[i].one
            < nodes.len()
}

/// No node is the child of two slots.
pub open spec fn single_parent(nodes: Seq<Node>) -> bool {
    forall|i: int, a: bool, j: int, b: bool|
        0 <= i < nodes.len() && 0 <= j < nodes.len() && (#[trigger] nodes[i].child(a)) != 0
            && nodes[i].child(a) == (#[trigger] nodes[j].child(b)) ==> i == j && a == b
}

/// The table is a tree below its root: child indices are in range and no
/// node has two parents.
pub open spec fn tree_shaped(nodes: Seq<Node>) -> bool {
    bounded(nodes) && single_parent(nodes)
}

/// The node reached from the root along the first `k` bits of `h`, if every
/// edge on the way exists.
pub open spec fn descend(nodes: Seq<Node>, h: u64, k: nat) -> Option<int>
    decreases k,
{
    if k == 0 {
        Some(0int)
    } else {
        match descend(nodes, h, (k - 1) as nat) {
            Some(i) => {
                let c = nodes[i].child(bit(h, (k - 1) as nat));
                if c != 0 {
                    Some(c as int)
                } else {
                    None
                }
            },
            None => None,
        }
    }
}

/// Whether `h` is stored: its whole path of 64 edges exists.
pub open spec fn contains(nodes: Seq<Node>, h: u64) -> bool {
    descend(nodes, h, 64) is Some
}

/// The set of stored fingerprints.
pub open spec fn contents(nodes: Seq<Node>) -> Set<u64> {
    Set::new(|h: u64| contains(nodes, h))
}

/// The longest prefix of `h`, up to `k` bits, whose path exists.
pub open spec fn matched_upto(nodes: Seq<Node>, h: u64, k: nat) -> nat
    decreases k,
{
    if k == 0 {
        0
    } else if descend(nodes, h, k) is Some {
        k
    } else {
        matched_upto(nodes, h, (k - 1) as nat)
    }
}

/// How many leading bits of `h` the trie already has a path for: the
/// position at which the path of `h` leaves the trie, or 64 if `h` is stored.
pub open spec fn matched(nodes: Seq<Node>, h: u64) -> nat {
    matched_upto(nodes, h, 64)
}

/// The stored fingerprints whose first `pos` bits are `prefix`.
pub open spec fn below(nodes: Seq<Node>, prefix: u64, pos: nat) -> Set<u64> {
    Set::new(|h: u64| low_bits(h, pos) == prefix && contains(nodes, h))
}

/// An upper bound on the steps a traversal needs below node `i` at depth `pos`.
pub open spec fn weight(nodes: Seq<Node>, i: int, pos: nat) -> nat
    decreases 64 - pos,
{
    if pos >= 64 {
        1
    } else {
        let zero = nodes[i].zero;
        let one = nodes[i].one;
        let w0 = if zero != 0 {
            weight(nodes, zero as int, pos + 1)
        } else {
            0
        };
        let w1 = if one != 0 {
            weight(nodes, one as int, pos + 1)
        } else {
            0
        };
        1 + w0 + w1
    }
}

/// A path that exists ends inside the table, and below the root once it has
/// taken a step.
pub proof fn lemma_descend_bounded(nodes: Seq<Node>, h: u64, k: nat)
    requires
        bounded(nodes),
    ensures
        descend(nodes, h, k) matches Some(i) ==> 0 <= i < nodes.len() && (k > 0 ==> i > 0),
    decreases k,
{
    if k > 0 {
        lemma_descend_bounded(nodes, h, (k - 1) as nat);
    }
}

/// A path that is missing stays missing when more bits are followed.
pub proof fn lemma_descend_ends(nodes: Seq<Node>, h: u64, j: nat, k: nat)
    requires
        j <= k,
        descend(nodes, h, j) is None,
    ensures
        descend(nodes, h, k) is None,
    decreases k,
{
    if j < k {
        lemma_descend_ends(nodes, h, j, (k - 1) as nat);
    }
}

/// The first `k` edges of a path depend on the first `k` bits only.
pub proof fn lemma_descend_prefix(nodes: Seq<Node>, a: u64, b: u64, k: nat)
    requires
        k <= 64,
        low_bits(a, k) == low_bits(b, k),
    ensures
        descend(nodes, a, k) == descend(nodes, b, k),
    decreases k,
{
    if k > 0 {
        let j = (k - 1) as nat;
        lemma_low_bits_shorter(a, b, k, j);
        lemma_descend_prefix(nodes, a, b, j);
        lemma_low_bits_same_bit(a, b, k, j);
    }
}

/// In a tree, a node is reached by one prefix only.
pub proof fn lemma_unique_path(nodes: Seq<Node>, a: u64, j: nat, b: u64, k: nat)
    requires
        tree_shaped(nodes),
        j <= 64,
        k <= 64,
        descend(nodes, a, j) is Some,
        descend(nodes, a, j) == descend(nodes, b, k),
    ensures
        j == k,
        low_bits(a, j) == low_bits(b, j),
    decreases j,
{
    lemma_descend_bounded(nodes, a, j);
    lemma_descend_bounded(nodes, b, k);
    if j == 0 {
        lemma_low_bits_none(a);
        lemma_low_bits_none(b);
    } else {
        let j1 = (j - 1) as nat;
        let k1 = (k - 1) as nat;
        let p = descend(nodes, a, j1)->0;
        let q = descend(nodes, b, k1)->0;
        lemma_descend_bounded(nodes, a, j1);
        lemma_descend_bounded(nodes, b, k1);
        assert(nodes[p].child(bit(a, j1)) == nodes[q].child(bit(b, k1)));
        lemma_unique_path(nodes, a, j1, b, k1);
        lemma_low_bits_step(a, j1);
        lemma_low_bits_step(b, j1);
    }
}

/// `matched_upto` names a prefix whose path exists, and the longest such.
pub proof fn lemma_matched_upto(nodes: Seq<Node>, h: u64, k: nat)
    ensures
        matched_upto(nodes, h, k) <= k,
        descend(nodes, h, matched_upto(nodes, h, k)) is Some,
        forall|j: nat| matched_upto(nodes, h, k) < j <= k ==> descend(nodes, h, j) is None,
    decreases k,
{
    if k > 0 && !(descend(nodes, h, k) is Some) {
        lemma_matched_upto(nodes, h, (k - 1) as nat);
    }
}

/// The position at which a path leaves the trie is the one after which the
/// next edge is missing.
pub proof fn lemma_matched_is(nodes: Seq<Node>, h: u64, k: nat)
    requires
        k <= 64,
        descend(nodes, h, k) is Some,
        k < 64 ==> descend(nodes, h, k + 1) is None,
    ensures
        matched(nodes, h) == k,
{
    lemma_matched_upto(nodes, h, 64);
    let m = matched(nodes, h);
    if m < k {
        assert(descend(nodes, h, k) is None);
    }
    if m > k {
        lemma_descend_ends(nodes, h, k + 1, m);
    }
}

/// A table that holds a childless root alone is a tree that stores nothing.
pub proof fn lemma_root_alone(nodes: Seq<Node>)
    requires
        nodes == seq![Node { zero: 0, one: 0 }],
    ensures
        tree_shaped(nodes),
        contents(nodes) == Set::<u64>::empty(),
        forall|h: u64| #[trigger] matched(nodes, h) == 0,
{
    assert forall|h: u64| !contains(nodes, h) by {
        assert(descend(nodes, h, 0) == Some(0int));
        assert(descend(nodes, h, 1) is None);
        lemma_descend_ends(nodes, h, 1, 64);
    }
    assert forall|h: u64| #[trigger] matched(nodes, h) == 0 by {
        assert(descend(nodes, h, 0) == Some(0int));
        assert(descend(nodes, h, 1) is None);
        lemma_matched_is(nodes, h, 0);
    }
    assert(contents(nodes) =~= Set::<u64>::empty());
}

/// The child held in slot `t` of the table: slot `2 * i` is the zero-branch
/// of node `i`, slot `2 * i + 1` its one-branch.
pub open spec fn slot_child(nodes: Seq<Node>, t: int) -> u32 {
    nodes[t / 2].child(t % 2 == 1)
}

/// A table is a tree if its slots hold indices inside it and no two slots
/// hold the same child.
pub proof fn lemma_slots_tree(nodes: Seq<Node>)
    requires
        1 <= nodes.len() <= u32::MAX,
        forall|t: int| 0 <= t < 2 * nodes.len() ==> #[trigger] slot_child(nodes, t) < nodes.len(),
        forall|t: int, u: int|
            0 <= t < 2 * nodes.len() && 0 <= u < 2 * nodes.len() && #[trigger] slot_child(nodes, t)
                != 0 && slot_child(nodes, t) == #[trigger] slot_child(nodes, u) ==> t == u,
    ensures
        tree_shaped(nodes),
{
    assert forall|i: int| 0 <= i < nodes.len() implies (#[trigger] nodes[i]).zero < nodes.len()
        && nodes[i].one < nodes.len() by {
        assert(slot_child(nodes, 2 * i) == nodes[i].zero);
        assert(slot_child(nodes, 2 * i + 1) == nodes[i].one);
    }
    assert forall|i: int, a: bool, j: int, b: bool|
        0 <= i < nodes.len() && 0 <= j < nodes.len() && (#[trigger] nodes[i].child(a)) != 0
            && nodes[i].child(a) == (#[trigger] nodes[j].child(b)) implies i == j && a == b by {
        let t = 2 * i + if a { 1int } else { 0int };
        let u = 2 * j + if b { 1int } else { 0int };
        assert(slot_child(nodes, t) == nodes[i].child(a));
        assert(slot_child(nodes, u) == nodes[j].child(b));
    }
}

/// A table in which a slot holds an index outside it is not a tree.
pub proof fn lemma_slot_outside(nodes: Seq<Node>, t: int)
    requires
        0 <= t < 2 * nodes.len(),
        slot_child(nodes, t) >= nodes.len(),
    ensures
        !bounded(nodes),
{
    let i = t / 2;
    assert(nodes[i].zero >= nodes.len() || nodes[i].one >= nodes.len());
}

/// A table in which two slots hold the same child is not a tree.
pub proof fn lemma_slot_shared(nodes: Seq<Node>, t: int, u: int)
    requires
        0 <= t < 2 * nodes.len(),
        0 <= u < 2 * nodes.len(),
        t != u,
        slot_child(nodes, t) != 0,
        slot_child(nodes, t) == slot_child(nodes, u),
    ensures
        !single_parent(nodes),
{
    let i = t / 2;
    let j = u / 2;
    let a = t % 2 == 1;
    let b = u % 2 == 1;
    assert(nodes[i].child(a) == nodes[j].child(b));
    assert(!(i == j && a == b));
}

} // verus!
