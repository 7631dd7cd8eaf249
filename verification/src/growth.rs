//! How a table grows when a fingerprint is stored.
//!
//! Storing a fingerprint completes its path: from the position at which the
//! path leaves the trie, one leaf after the other is appended to the table
//! and linked below the node before it. Nothing else changes, so what the
//! table is afterwards is a function of the table and the fingerprint.

use crate::bits::{bit, low_bits};
use crate::bits::{lemma_low_bits_same_bit, lemma_low_bits_shorter, lemma_low_bits_step};
use crate::node::Node;
use crate::paths::{bounded, contains, contents, descend, matched, tree_shaped};
use crate::paths::{lemma_descend_bounded, lemma_descend_ends, lemma_descend_prefix, lemma_matched_upto, lemma_unique_path};
use vstd::prelude::*;

verus! {

/// The table `nodes` after a fresh leaf has been appended and linked below
/// node `p` on the branch for `b`.
pub open spec fn attached(nodes: Seq<Node>, p: int, b: bool) -> Seq<Node> {
    nodes.push(Node { zero: 0, one: 0 }).update(p, nodes[p].with_child(b, nodes.len() as u32))
}

/// The table `nodes` after the path of `hash`, which exists down to node `p`
/// at depth `pos`, has been completed: for each bit from `pos` on, a fresh
/// leaf is appended and linked below the node of the bit before.
pub open spec fn completed(nodes: Seq<Node>, hash: u64, pos: nat, p: int) -> Seq<Node>
    decreases 64 - pos,
{
    if pos >= 64 {
        nodes
    } else {
        completed(attached(nodes, p, bit(hash, pos)), hash, pos + 1, nodes.len() as int)
    }
}

/// The table `nodes` after `hash` has been stored in it: the path of `hash`
/// completed from the position at which it left the trie.
pub open spec fn planted(nodes: Seq<Node>, hash: u64) -> Seq<Node> {
    completed(
        nodes,
        hash,
        matched(nodes, hash),
        descend(nodes, hash, matched(nodes, hash)).unwrap(),
    )
}

/// Where the first `k` bits of `h` lead once the path of `hash` has been
/// extended by one edge at depth `pos`.
pub open spec fn descend_attached(nodes: Seq<Node>, hash: u64, pos: nat, h: u64, k: nat) -> Option<
    int,
> {
    if k > pos && low_bits(h, pos + 1) == low_bits(hash, pos + 1) {
        if k == pos + 1 {
            Some(nodes.len() as int)
        } else {
            None
        }
    } else {
        descend(nodes, h, k)
    }
}

/// Extending the path of `hash` by one edge keeps the table a tree.
pub proof fn lemma_attached_tree(nodes: Seq<Node>, p: int, b: bool)
    requires
        tree_shaped(nodes),
        nodes.len() < u32::MAX,
        0 <= p < nodes.len(),
        nodes[p].child(b) == 0,
    ensures
        tree_shaped(attached(nodes, p, b)),
{
    let next = attached(nodes, p, b);
    let fresh = nodes.len() as u32;
    assert forall|i: int| 0 <= i < next.len() implies (#[trigger] next[i]).zero < next.len()
        && next[i].one < next.len() by {
        if i < nodes.len() {
            assert(nodes[i].zero < nodes.len());
        }
    }
    assert forall|i: int, a: bool, j: int, c: bool|
        0 <= i < next.len() && 0 <= j < next.len() && (#[trigger] next[i].child(a)) != 0
            && next[i].child(a) == (#[trigger] next[j].child(c)) implies i == j && a == c by {
        assert(i < nodes.len());
        assert(j < nodes.len());
        assert(nodes[i].zero < nodes.len() && nodes[j].zero < nodes.len());
        if next[i].child(a) == fresh {
            assert(i == p && a == b);
            assert(j == p && c == b);
        } else {
            assert(next[i].child(a) == nodes[i].child(a));
            assert(next[j].child(c) == nodes[j].child(c));
        }
    }
}

/// Extending the path of `hash` by one edge adds that edge and changes no
/// other path.
pub proof fn lemma_attached_path(nodes: Seq<Node>, hash: u64, pos: nat, p: int, h: u64, k: nat)
    requires
        tree_shaped(nodes),
        nodes.len() < u32::MAX,
        pos < 64,
        k <= 64,
        descend(nodes, hash, pos) == Some(p),
        nodes[p].child(bit(hash, pos)) == 0,
    ensures
        descend(attached(nodes, p, bit(hash, pos)), h, k) == descend_attached(
            nodes,
            hash,
            pos,
            h,
            k,
        ),
    decreases k,
{
    let b = bit(hash, pos);
    let next = attached(nodes, p, b);
    let fresh = nodes.len() as int;
    lemma_descend_bounded(nodes, hash, pos);
    if k > 0 {
        let k1 = (k - 1) as nat;
        lemma_attached_path(nodes, hash, pos, p, h, k1);
        let same = low_bits(h, pos + 1) == low_bits(hash, pos + 1);
        if k1 > pos && same {
            assert(next[fresh] == Node { zero: 0, one: 0 });
        } else {
            let d = descend(nodes, h, k1);
            lemma_descend_bounded(nodes, h, k1);
            if k > pos && same {
                assert(k1 == pos);
                lemma_low_bits_shorter(h, hash, pos + 1, pos);
                lemma_descend_prefix(nodes, h, hash, pos);
                lemma_low_bits_same_bit(h, hash, pos + 1, pos);
                assert(next[p].child(b) == fresh);
            } else if d is Some {
                let q = d->0;
                if q == p {
                    lemma_unique_path(nodes, h, k1, hash, pos);
                    if bit(h, pos) == b {
                        lemma_low_bits_step(h, pos);
                        lemma_low_bits_step(hash, pos);
                    }
                    assert(next[q].child(bit(h, k1)) == nodes[q].child(bit(h, k1)));
                } else {
                    assert(next[q] == nodes[q]);
                }
            }
        }
    }
}

/// Extending the path of `hash` by one edge stores `hash` if that edge was
/// the last one, and changes nothing else of what is stored.
pub proof fn lemma_attached_contents(nodes: Seq<Node>, hash: u64, pos: nat, p: int)
    requires
        tree_shaped(nodes),
        nodes.len() < u32::MAX,
        pos < 64,
        descend(nodes, hash, pos) == Some(p),
        nodes[p].child(bit(hash, pos)) == 0,
    ensures
        descend(attached(nodes, p, bit(hash, pos)), hash, pos + 1) == Some(nodes.len() as int),
        forall|h: u64|
            #[trigger] contains(attached(nodes, p, bit(hash, pos)), h) == (contains(nodes, h) || (pos
                == 63 && h == hash)),
{
    let next = attached(nodes, p, bit(hash, pos));
    lemma_attached_path(nodes, hash, pos, p, hash, pos + 1);
    assert forall|h: u64|
        #[trigger] contains(next, h) == (contains(nodes, h) || (pos == 63 && h == hash)) by {
        lemma_attached_path(nodes, hash, pos, p, h, 64);
        if low_bits(h, pos + 1) == low_bits(hash, pos + 1) {
            lemma_low_bits_shorter(h, hash, pos + 1, pos);
            lemma_descend_prefix(nodes, h, hash, pos);
            lemma_low_bits_same_bit(h, hash, pos + 1, pos);
            assert(descend(nodes, h, pos + 1) is None);
            lemma_descend_ends(nodes, h, pos + 1, 64);
        }
    }
}

/// Whether `after` can follow `before` in the life of a table: nothing is
/// removed, and a child link that was set stays as it was.
pub open spec fn grown(before: Seq<Node>, after: Seq<Node>) -> bool {
    &&& before.len() <= after.len()
    &&& forall|i: int, b: bool|
        0 <= i < before.len() && (#[trigger] before[i].child(b)) != 0 ==> after[i].child(b)
            == before[i].child(b)
}

/// What storing `hash` makes of the table `before`. If `hash` was stored,
/// nothing changes. Otherwise the path of `hash` is completed from the
/// position at which it left the trie: one node is appended for each
/// remaining bit, each linked below the one before it, and the table stays a
/// tree that stores `hash` besides what it stored.
pub open spec fn inserted(before: Seq<Node>, hash: u64, existed: bool, after: Seq<Node>) -> bool {
    &&& after == planted(before, hash)
    &&& tree_shaped(after)
    &&& existed == contains(before, hash)
    &&& contents(after) == contents(before).insert(hash)
    &&& existed ==> after == before
    &&& after.len() == before.len() + 64 - matched(before, hash)
    &&& grown(before, after)
    &&& forall|k: nat|
        matched(before, hash) < k <= 64 ==> #[trigger] descend(after, hash, k) == Some(
            before.len() + k - matched(before, hash) - 1,
        )
}

/// The set stored after the values of `hashes` have been stored, one by
/// one, in a trie that stored `start`.
pub open spec fn stored_after(start: Set<u64>, hashes: Seq<u64>) -> Set<u64>
    decreases hashes.len(),
{
    if hashes.len() == 0 {
        start
    } else {
        stored_after(start, hashes.drop_last()).insert(hashes.last())
    }
}

/// Storing values one by one adds exactly those values, whatever their order
/// and however often one occurs.
pub proof fn lemma_stored_after(start: Set<u64>, hashes: Seq<u64>)
    ensures
        stored_after(start, hashes) == start + hashes.to_set(),
    decreases hashes.len(),
{
    if hashes.len() == 0 {
        assert(hashes.to_set() =~= Set::<u64>::empty());
        assert(start + hashes.to_set() =~= start);
    } else {
        let rest = hashes.drop_last();
        lemma_stored_after(start, rest);
        rest.lemma_push_to_set_commute(hashes.last());
        assert(rest.push(hashes.last()) =~= hashes);
        assert(stored_after(start, hashes) =~= start + hashes.to_set());
    }
}

/// Two sequences that hold the same values leave the same set stored, in
/// whatever order they hold them.
pub proof fn lemma_insertion_order(start: Set<u64>, a: Seq<u64>, b: Seq<u64>)
    requires
        a.to_set() == b.to_set(),
    ensures
        stored_after(start, a) == stored_after(start, b),
        stored_after(Set::<u64>::empty(), a) == a.to_set(),
{
    lemma_stored_after(start, a);
    lemma_stored_after(start, b);
    lemma_stored_after(Set::<u64>::empty(), a);
    assert(Set::<u64>::empty() + a.to_set() =~= a.to_set());
}

/// Storing a value a second time reports it as stored and changes nothing:
/// the table, and with it the number of nodes, is what the first call left.
/// The first call reports the value as stored exactly if it was.
pub proof fn lemma_insert_twice(
    start: Seq<Node>,
    hash: u64,
    first: bool,
    once: Seq<Node>,
    second: bool,
    twice: Seq<Node>,
)
    requires
        inserted(start, hash, first, once),
        inserted(once, hash, second, twice),
    ensures
        first == contains(start, hash),
        second,
        twice == once,
        twice.len() == once.len(),
{
    assert(contents(once).contains(hash));
}

/// Completing a path that exists down to depth `pos`, and no further, keeps
/// the table a tree, stores the fingerprint of the path besides what was
/// stored, and appends one node for each remaining bit.
pub proof fn lemma_completed(nodes: Seq<Node>, hash: u64, pos: nat, p: int)
    requires
        tree_shaped(nodes),
        pos <= 64,
        descend(nodes, hash, pos) == Some(p),
        pos < 64 ==> nodes[p].child(bit(hash, pos)) == 0,
        nodes.len() + 64 - pos <= u32::MAX,
    ensures
        tree_shaped(completed(nodes, hash, pos, p)),
        completed(nodes, hash, pos, p).len() == nodes.len() + 64 - pos,
        grown(nodes, completed(nodes, hash, pos, p)),
        forall|h: u64|
            #[trigger] contains(completed(nodes, hash, pos, p), h) == (contains(nodes, h) || (pos
                < 64 && h == hash)),
        forall|k: nat|
            k <= pos ==> #[trigger] descend(completed(nodes, hash, pos, p), hash, k) == descend(
                nodes,
                hash,
                k,
            ),
        forall|k: nat|
            pos < k <= 64 ==> #[trigger] descend(completed(nodes, hash, pos, p), hash, k) == Some(
                nodes.len() + k - pos - 1,
            ),
    decreases 64 - pos,
{
    if pos < 64 {
        let b = bit(hash, pos);
        let mid = attached(nodes, p, b);
        let fresh = nodes.len() as int;
        let after = completed(nodes, hash, pos, p);
        lemma_descend_bounded(nodes, hash, pos);
        lemma_attached_tree(nodes, p, b);
        lemma_attached_contents(nodes, hash, pos, p);
        assert(mid[fresh] == Node { zero: 0, one: 0 });
        lemma_completed(mid, hash, pos + 1, fresh);
        assert(after == completed(mid, hash, pos + 1, fresh));
        assert forall|i: int, c: bool|
            0 <= i < nodes.len() && (#[trigger] nodes[i].child(c)) != 0 implies after[i].child(c)
            == nodes[i].child(c) by {
            assert(mid[i].child(c) == nodes[i].child(c));
        }
        assert forall|k: nat| k <= pos implies #[trigger] descend(after, hash, k) == descend(
            nodes,
            hash,
            k,
        ) by {
            lemma_attached_path(nodes, hash, pos, p, hash, k);
        }
        assert forall|k: nat| pos < k <= 64 implies #[trigger] descend(after, hash, k) == Some(
            nodes.len() + k - pos - 1,
        ) by {
            if k == pos + 1 {
                assert(descend(after, hash, k) == descend(mid, hash, k));
            }
        }
    }
}

/// Storing a fingerprint in a tree that has room for its path does what
/// `inserted` says.
pub proof fn lemma_planted(nodes: Seq<Node>, hash: u64)
    requires
        tree_shaped(nodes),
        contains(nodes, hash) || nodes.len() + 64 - matched(nodes, hash) <= u32::MAX,
    ensures
        inserted(nodes, hash, contains(nodes, hash), planted(nodes, hash)),
{
    let m = matched(nodes, hash);
    lemma_matched_upto(nodes, hash, 64);
    let p = descend(nodes, hash, m).unwrap();
    if m < 64 {
        assert(descend(nodes, hash, m + 1) is None);
        lemma_descend_ends(nodes, hash, m + 1, 64);
    }
    lemma_completed(nodes, hash, m, p);
    assert(contents(planted(nodes, hash)) =~= contents(nodes).insert(hash));
}

/// The table after the values of `hashes` have been stored, one by one, in
/// the table `start`.
pub open spec fn planted_all(start: Seq<Node>, hashes: Seq<u64>) -> Seq<Node>
    decreases hashes.len(),
{
    if hashes.len() == 0 {
        start
    } else {
        planted(planted_all(start, hashes.drop_last()), hashes.last())
    }
}

/// Whether the table stays within the 32-bit index space while the values
/// of `hashes` are stored, one by one, in the table `start`.
pub open spec fn fits(start: Seq<Node>, hashes: Seq<u64>) -> bool
    decreases hashes.len(),
{
    if hashes.len() == 0 {
        start.len() <= u32::MAX
    } else {
        fits(start, hashes.drop_last()) && planted_all(start, hashes).len() <= u32::MAX
    }
}

/// Storing values one by one in a tree, as long as the table has room,
/// leaves a tree that stores those values besides what it stored, and that
/// has at most 64 nodes more for each value.
pub proof fn lemma_planted_all(start: Seq<Node>, hashes: Seq<u64>)
    requires
        tree_shaped(start),
        fits(start, hashes),
    ensures
        tree_shaped(planted_all(start, hashes)),
        contents(planted_all(start, hashes)) == stored_after(contents(start), hashes),
        contents(planted_all(start, hashes)) == contents(start) + hashes.to_set(),
        start.len() <= planted_all(start, hashes).len() <= start.len() + 64 * hashes.len(),
    decreases hashes.len(),
{
    lemma_stored_after(contents(start), hashes);
    if hashes.len() > 0 {
        let rest = hashes.drop_last();
        let middle = planted_all(start, rest);
        lemma_planted_all(start, rest);
        lemma_planted_len(middle, hashes.last());
        lemma_planted(middle, hashes.last());
    }
}

/// A table has room for any values of which each can have its whole path.
pub proof fn lemma_fits(start: Seq<Node>, hashes: Seq<u64>)
    requires
        tree_shaped(start),
        start.len() + 64 * hashes.len() <= u32::MAX,
    ensures
        fits(start, hashes),
    decreases hashes.len(),
{
    if hashes.len() > 0 {
        let rest = hashes.drop_last();
        let middle = planted_all(start, rest);
        lemma_fits(start, rest);
        lemma_planted_all(start, rest);
        lemma_planted_len(middle, hashes.last());
    }
}

/// Completing a path appends one node for each remaining bit.
pub proof fn lemma_completed_len(nodes: Seq<Node>, hash: u64, pos: nat, p: int)
    requires
        pos <= 64,
        0 <= p < nodes.len(),
    ensures
        completed(nodes, hash, pos, p).len() == nodes.len() + 64 - pos,
    decreases 64 - pos,
{
    if pos < 64 {
        lemma_completed_len(attached(nodes, p, bit(hash, pos)), hash, pos + 1, nodes.len() as int);
    }
}

/// Storing a fingerprint appends one node for each bit that its path lacked.
pub proof fn lemma_planted_len(nodes: Seq<Node>, hash: u64)
    requires
        bounded(nodes),
    ensures
        matched(nodes, hash) <= 64,
        planted(nodes, hash).len() == nodes.len() + 64 - matched(nodes, hash),
{
    let m = matched(nodes, hash);
    lemma_matched_upto(nodes, hash, 64);
    lemma_descend_bounded(nodes, hash, m);
    lemma_completed_len(nodes, hash, m, descend(nodes, hash, m).unwrap());
}

/// A table that has room for all the values has room for the first of them.
pub proof fn lemma_fits_prefix(start: Seq<Node>, hashes: Seq<u64>, j: int)
    requires
        fits(start, hashes),
        0 <= j <= hashes.len(),
    ensures
        fits(start, hashes.take(j)),
        planted_all(start, hashes.take(j)).len() <= u32::MAX,
    decreases hashes.len(),
{
    if j == hashes.len() {
        assert(hashes.take(j) =~= hashes);
    } else {
        assert(hashes.drop_last().take(j) =~= hashes.take(j));
        lemma_fits_prefix(start, hashes.drop_last(), j);
    }
}

} // verus!
