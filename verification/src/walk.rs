//! Depth-first traversal with an explicit stack, as a model.
//!
//! A traversal keeps a stack of frames. A frame stands for the subtree below
//! one node: the node, its depth, and the bits of the path that leads to it.
//! What a traversal has still to visit is the union, over its stack, of the
//! fingerprints stored below each frame.

use crate::bits::{bit, low_bits};
use crate::bits::{lemma_bit_of_low_bits, lemma_bit_of_set, lemma_low_bits_none, lemma_low_bits_of_set, lemma_low_bits_same_bit, lemma_low_bits_step, lemma_low_bits_twice};
use crate::node::Node;
use crate::paths::{below, contains, contents, descend, weight};
use crate::paths::{lemma_descend_ends, lemma_descend_prefix};
use vstd::prelude::*;

verus! {

/// A subtree put aside for later: the bits of the path to its root, the
/// depth of that root, and the root's index.
pub struct Frame {
    pub prefix: u64,
    pub pos: nat,
    pub node: int,
}

/// The frame names an existing path: `prefix` has `pos` bits, and following
/// them from the root leads to `node`.
pub open spec fn frame_ok(nodes: Seq<Node>, f: Frame) -> bool {
    &&& f.pos <= 64
    &&& low_bits(f.prefix, f.pos) == f.prefix
    &&& descend(nodes, f.prefix, f.pos) == Some(f.node)
}

/// `prefix`, of `pos` bits, extended by the bit `b`.
pub open spec fn extend(prefix: u64, pos: nat, b: bool) -> u64 {
    if b {
        prefix | (1u64 << (pos as u64))
    } else {
        prefix
    }
}

/// The frame of the child of `f` on the branch for `b`.
pub open spec fn child_frame(nodes: Seq<Node>, f: Frame, b: bool) -> Frame {
    Frame {
        prefix: extend(f.prefix, f.pos, b),
        pos: f.pos + 1,
        node: nodes[f.node].child(b) as int,
    }
}

/// The fingerprints stored below frame `f`.
pub open spec fn under(nodes: Seq<Node>, f: Frame) -> Set<u64> {
    below(nodes, f.prefix, f.pos)
}

/// The fingerprints stored below the child of `f` on the branch for `b`.
pub open spec fn under_child(nodes: Seq<Node>, f: Frame, b: bool) -> Set<u64> {
    if nodes[f.node].child(b) != 0 {
        under(nodes, child_frame(nodes, f, b))
    } else {
        Set::empty()
    }
}

/// `g` lies on the other side of the branch at which `f` was put aside, so
/// that no fingerprint is below both.
pub open spec fn apart(f: Frame, g: Frame) -> bool {
    &&& 1 <= f.pos <= g.pos
    &&& bit(f.prefix, (f.pos - 1) as nat) != bit(g.prefix, (f.pos - 1) as nat)
}

/// Every frame of the stack names an existing path, and each lies apart from
/// those above it.
pub open spec fn stack_ok(nodes: Seq<Node>, frames: Seq<Frame>) -> bool {
    &&& forall|i: int| 0 <= i < frames.len() ==> frame_ok(nodes, #[trigger] frames[i])
    &&& forall|i: int, j: int| 0 <= i < j < frames.len() ==> apart(#[trigger] frames[i], #[trigger] frames[j])
}

/// Each frame of the stack lies apart from `g`.
pub open spec fn all_apart(frames: Seq<Frame>, g: Frame) -> bool {
    forall|i: int| 0 <= i < frames.len() ==> apart(#[trigger] frames[i], g)
}

/// The fingerprints stored below the frames of the stack.
pub open spec fn pending(nodes: Seq<Node>, frames: Seq<Frame>) -> Set<u64>
    decreases frames.len(),
{
    if frames.len() == 0 {
        Set::empty()
    } else {
        pending(nodes, frames.drop_last()) + under(nodes, frames.last())
    }
}

/// An upper bound on the steps needed to exhaust the stack.
pub open spec fn load(nodes: Seq<Node>, frames: Seq<Frame>) -> nat
    decreases frames.len(),
{
    if frames.len() == 0 {
        0
    } else {
        load(nodes, frames.drop_last()) + weight(nodes, frames.last().node, frames.last().pos)
    }
}

/// The frame from which a traversal of the whole trie starts.
pub open spec fn root_frame() -> Frame {
    Frame { prefix: 0, pos: 0, node: 0 }
}

/// Everything stored is below the root frame.
pub proof fn lemma_root_frame(nodes: Seq<Node>)
    ensures
        frame_ok(nodes, root_frame()),
        stack_ok(nodes, seq![root_frame()]),
        pending(nodes, seq![root_frame()]) == contents(nodes),
{
    lemma_low_bits_none(0);
    let frames = seq![root_frame()];
    assert(frames.drop_last() =~= Seq::<Frame>::empty());
    assert(pending(nodes, frames.drop_last()) == Set::<u64>::empty());
    assert forall|h: u64| under(nodes, root_frame()).contains(h) == contents(nodes).contains(h) by {
        lemma_low_bits_none(h);
    }
    assert(pending(nodes, frames) =~= contents(nodes));
}

/// Pushing a frame adds what is stored below it, and its weight.
pub proof fn lemma_push(nodes: Seq<Node>, frames: Seq<Frame>, f: Frame)
    ensures
        pending(nodes, frames.push(f)) == pending(nodes, frames) + under(nodes, f),
        load(nodes, frames.push(f)) == load(nodes, frames) + weight(nodes, f.node, f.pos),
{
    assert(frames.push(f).drop_last() =~= frames);
}

/// An extended prefix is matched by the values that match the prefix and
/// have the added bit.
pub proof fn lemma_extend(prefix: u64, pos: nat, b: bool, h: u64)
    requires
        pos < 64,
        low_bits(prefix, pos) == prefix,
    ensures
        low_bits(h, pos + 1) == extend(prefix, pos, b) <==> low_bits(h, pos) == prefix && bit(
            h,
            pos,
        ) == b,
        bit(extend(prefix, pos, b), pos) == b,
        low_bits(extend(prefix, pos, b), pos) == prefix,
        low_bits(extend(prefix, pos, b), pos + 1) == extend(prefix, pos, b),
{
    let e = extend(prefix, pos, b);
    lemma_bit_of_low_bits(prefix, pos, pos);
    lemma_bit_of_set(prefix, pos, pos);
    lemma_low_bits_of_set(prefix, pos);
    lemma_low_bits_step(e, pos);
    lemma_low_bits_step(h, pos);
    if low_bits(h, pos + 1) == e {
        lemma_low_bits_twice(h, pos + 1, pos);
        lemma_bit_of_low_bits(h, pos + 1, pos);
    }
}

/// The child of a frame that names an existing path does so too, if there
/// is a child.
pub proof fn lemma_child_frame(nodes: Seq<Node>, f: Frame, b: bool)
    requires
        frame_ok(nodes, f),
        f.pos < 64,
        nodes[f.node].child(b) != 0,
    ensures
        frame_ok(nodes, child_frame(nodes, f, b)),
{
    let e = extend(f.prefix, f.pos, b);
    lemma_extend(f.prefix, f.pos, b, e);
    lemma_descend_prefix(nodes, e, f.prefix, f.pos);
}

/// What is stored below a frame is what is stored below its two children.
pub proof fn lemma_under_children(nodes: Seq<Node>, f: Frame)
    requires
        frame_ok(nodes, f),
        f.pos < 64,
    ensures
        under(nodes, f) == under_child(nodes, f, false) + under_child(nodes, f, true),
{
    let both = under_child(nodes, f, false) + under_child(nodes, f, true);
    assert forall|h: u64| under(nodes, f).contains(h) == both.contains(h) by {
        let b = bit(h, f.pos);
        lemma_extend(f.prefix, f.pos, false, h);
        lemma_extend(f.prefix, f.pos, true, h);
        if low_bits(h, f.pos) == f.prefix {
            lemma_descend_prefix(nodes, h, f.prefix, f.pos);
            if nodes[f.node].child(b) == 0 {
                assert(descend(nodes, h, f.pos + 1) is None);
                lemma_descend_ends(nodes, h, f.pos + 1, 64);
            }
        }
    }
    assert(under(nodes, f) =~= both);
}

/// Below a frame at full depth is the one fingerprint that its path spells.
pub proof fn lemma_under_leaf(nodes: Seq<Node>, f: Frame)
    requires
        frame_ok(nodes, f),
        f.pos == 64,
    ensures
        under(nodes, f) == set![f.prefix],
{
    assert(under(nodes, f) =~= set![f.prefix]);
}

/// Frames that lie apart have nothing in common below them.
pub proof fn lemma_apart_disjoint(nodes: Seq<Node>, f: Frame, g: Frame, h: u64)
    requires
        frame_ok(nodes, f),
        frame_ok(nodes, g),
        apart(f, g),
    ensures
        !(under(nodes, f).contains(h) && under(nodes, g).contains(h)),
{
    if under(nodes, f).contains(h) && under(nodes, g).contains(h) {
        let j = (f.pos - 1) as nat;
        lemma_low_bits_same_bit(h, f.prefix, f.pos, j);
        lemma_low_bits_same_bit(h, g.prefix, g.pos, j);
    }
}

/// What is stored below a frame that lies apart from the whole stack is not
/// pending on the stack.
pub proof fn lemma_not_pending(nodes: Seq<Node>, frames: Seq<Frame>, g: Frame, h: u64)
    requires
        stack_ok(nodes, frames),
        frame_ok(nodes, g),
        all_apart(frames, g),
        under(nodes, g).contains(h),
    ensures
        !pending(nodes, frames).contains(h),
    decreases frames.len(),
{
    if frames.len() > 0 {
        let rest = frames.drop_last();
        assert forall|i: int| 0 <= i < rest.len() implies frame_ok(nodes, #[trigger] rest[i]) by {
            assert(rest[i] == frames[i]);
        }
        assert forall|i: int, j: int| 0 <= i < j < rest.len() implies apart(
            #[trigger] rest[i],
            #[trigger] rest[j],
        ) by {
            assert(rest[i] == frames[i] && rest[j] == frames[j]);
        }
        assert forall|i: int| 0 <= i < rest.len() implies apart(#[trigger] rest[i], g) by {
            assert(rest[i] == frames[i]);
        }
        lemma_not_pending(nodes, rest, g, h);
        assert(frames.last() == frames[frames.len() - 1]);
        lemma_apart_disjoint(nodes, frames.last(), g, h);
    }
}

/// A frame that lies apart from `g` lies apart from the children of `g`.
pub proof fn lemma_apart_child(nodes: Seq<Node>, f: Frame, g: Frame, b: bool)
    requires
        apart(f, g),
        g.pos < 64,
    ensures
        apart(f, child_frame(nodes, g, b)),
{
    lemma_bit_of_set(g.prefix, g.pos, (f.pos - 1) as nat);
}

/// The two children of a frame lie apart from each other.
pub proof fn lemma_children_apart(nodes: Seq<Node>, g: Frame, b: bool)
    requires
        g.pos < 64,
        low_bits(g.prefix, g.pos) == g.prefix,
    ensures
        apart(child_frame(nodes, g, !b), child_frame(nodes, g, b)),
{
    lemma_extend(g.prefix, g.pos, b, 0);
    lemma_extend(g.prefix, g.pos, !b, 0);
}

/// Popping the top frame of a sound stack leaves a sound stack from which
/// the popped frame lies apart.
pub proof fn lemma_pop(nodes: Seq<Node>, frames: Seq<Frame>)
    requires
        stack_ok(nodes, frames),
        frames.len() > 0,
    ensures
        stack_ok(nodes, frames.drop_last()),
        frame_ok(nodes, frames.last()),
        all_apart(frames.drop_last(), frames.last()),
        pending(nodes, frames) == pending(nodes, frames.drop_last()) + under(nodes, frames.last()),
        load(nodes, frames) == load(nodes, frames.drop_last()) + weight(
            nodes,
            frames.last().node,
            frames.last().pos,
        ),
{
    let rest = frames.drop_last();
    assert(frames.last() == frames[frames.len() - 1]);
    assert forall|i: int| 0 <= i < rest.len() implies frame_ok(nodes, #[trigger] rest[i]) by {
        assert(rest[i] == frames[i]);
    }
    assert forall|i: int, j: int| 0 <= i < j < rest.len() implies apart(
        #[trigger] rest[i],
        #[trigger] rest[j],
    ) by {
        assert(rest[i] == frames[i] && rest[j] == frames[j]);
    }
    assert forall|i: int| 0 <= i < rest.len() implies apart(#[trigger] rest[i], frames.last()) by {
        assert(rest[i] == frames[i]);
    }
}

/// Pushing a frame that names an existing path and from which the whole
/// stack lies apart keeps the stack sound.
pub proof fn lemma_push_ok(nodes: Seq<Node>, frames: Seq<Frame>, f: Frame)
    requires
        stack_ok(nodes, frames),
        frame_ok(nodes, f),
        all_apart(frames, f),
    ensures
        stack_ok(nodes, frames.push(f)),
{
    let more = frames.push(f);
    assert forall|i: int| 0 <= i < more.len() implies frame_ok(nodes, #[trigger] more[i]) by {
        if i < frames.len() {
            assert(more[i] == frames[i]);
        }
    }
    assert forall|i: int, j: int| 0 <= i < j < more.len() implies apart(
        #[trigger] more[i],
        #[trigger] more[j],
    ) by {
        assert(more[i] == frames[i]);
        if j < frames.len() {
            assert(more[j] == frames[j]);
        }
    }
}

/// A stack that lies apart from `g` lies apart from the children of `g`.
pub proof fn lemma_all_apart_child(nodes: Seq<Node>, frames: Seq<Frame>, g: Frame, b: bool)
    requires
        all_apart(frames, g),
        g.pos < 64,
    ensures
        all_apart(frames, child_frame(nodes, g, b)),
{
    assert forall|i: int| 0 <= i < frames.len() implies apart(
        #[trigger] frames[i],
        child_frame(nodes, g, b),
    ) by {
        lemma_apart_child(nodes, frames[i], g, b);
    }
}

/// The weight of a node above full depth is one more than that of its children.
pub proof fn lemma_weight(nodes: Seq<Node>, f: Frame)
    requires
        f.pos < 64,
    ensures
        weight(nodes, f.node, f.pos) == 1 + (if nodes[f.node].zero != 0 {
            weight(nodes, nodes[f.node].zero as int, f.pos + 1)
        } else {
            0
        }) + (if nodes[f.node].one != 0 {
            weight(nodes, nodes[f.node].one as int, f.pos + 1)
        } else {
            0
        }),
        weight(nodes, f.node, f.pos) >= 1,
{
}

} // verus!
