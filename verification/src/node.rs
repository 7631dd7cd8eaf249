//! Trie nodes and their fixed-width record form.
//!
//! A node is stored as eight bytes: the index of its zero-branch child, then
//! that of its one-branch child, each as a 32-bit little-endian integer.

use vstd::prelude::*;

verus! {

/// Size in bytes of one stored node.
pub const NODE_BYTES: usize = 8;

/// One node of the trie: the positions of its two children in the node
/// table, 0 standing for "no child".
#[derive(Debug, Clone, Copy, PartialEq, Eq, Structural)]
pub struct Node {
    pub zero: u32,
    pub one: u32,
}

impl Default for Node {
    fn default() -> (node: Node)
        ensures
            node == (Node { zero: 0, one: 0 }),
    {
        Node { zero: 0, one: 0 }
    }
}

/// The four bytes of `x`, least significant first.
pub open spec fn le_bytes(x: u32) -> Seq<u8> {
    seq![
        (x % 256) as u8,
        ((x / 256) % 256) as u8,
        ((x / 65536) % 256) as u8,
        ((x / 16777216) % 256) as u8,
    ]
}

/// The integer whose little-endian bytes are `b[at]` to `b[at + 3]`.
pub open spec fn le_value(b: Seq<u8>, at: int) -> int {
    b[at] + 256 * b[at + 1] + 65536 * b[at + 2] + 16777216 * b[at + 3]
}

/// The node stored in the record that starts at byte `at` of `b`.
pub open spec fn record_at(b: Seq<u8>, at: int) -> Node {
    Node { zero: le_value(b, at) as u32, one: le_value(b, at + 4) as u32 }
}

/// The nodes stored in `b`, one per complete record; a trailing partial
/// record is not counted.
pub open spec fn decode_table(b: Seq<u8>) -> Seq<Node> {
    Seq::new((b.len() / 8) as nat, |i: int| record_at(b, 8 * i))
}

/// The records of `nodes`, one after the other.
pub open spec fn encode_table(nodes: Seq<Node>) -> Seq<u8> {
    Seq::new(8 * nodes.len(), |p: int| nodes[p / 8].record()[p % 8])
}

impl Node {
    /// The child on the branch for bit value `b`.
    pub open spec fn child(self, b: bool) -> u32 {
        if b {
            self.one
        } else {
            self.zero
        }
    }

    /// This node with its child on the branch for `b` replaced by `c`.
    pub open spec fn with_child(self, b: bool, c: u32) -> Node {
        if b {
            Node { zero: self.zero, one: c }
        } else {
            Node { zero: c, one: self.one }
        }
    }

    /// The eight bytes of this node's record.
    pub open spec fn record(self) -> Seq<u8> {
        le_bytes(self.zero) + le_bytes(self.one)
    }

    /// Whether the node has no child.
    pub fn is_leaf(&self) -> (b: bool)
        ensures
            b == (self.zero == 0 && self.one == 0),
    {
        self.zero == 0 && self.one == 0
    }

    /// The child on the branch for bit value `b`.
    pub fn branch(&self, b: bool) -> (c: u32)
        ensures
            c == self.child(b),
    {
        if b {
            self.one
        } else {
            self.zero
        }
    }

    /// This node with its child on the branch for `b` replaced by `c`.
    pub fn linked(&self, b: bool, c: u32) -> (node: Node)
        ensures
            node == self.with_child(b, c),
    {
        if b {
            Node { zero: self.zero, one: c }
        } else {
            Node { zero: c, one: self.one }
        }
    }

    /// Encodes the node as its record.
    pub fn to_bytes(&self) -> (bytes: [u8; 8])
        ensures
            bytes@ == self.record(),
    {
        let z: u32 = self.zero;
        let o: u32 = self.one;
        let bytes: [u8; 8] = [
            (z % 256) as u8,
            ((z / 256) % 256) as u8,
            ((z / 65536) % 256) as u8,
            ((z / 16777216) % 256) as u8,
            (o % 256) as u8,
            ((o / 256) % 256) as u8,
            ((o / 65536) % 256) as u8,
            ((o / 16777216) % 256) as u8,
        ];
        assert(bytes@ =~= self.record());
        bytes
    }

    /// Decodes record number `index` of `bytes`.
    pub fn from_bytes(bytes: &[u8], index: usize) -> (node: Node)
        requires
            8 * (index + 1) <= bytes@.len(),
        ensures
            node == record_at(bytes@, 8 * index),
            node == decode_table(bytes@)[index as int],
    {
        let total: usize = bytes.len();
        assert(8 * (index + 1) <= total);
        let at: usize = 8 * index;
        let zero: u32 = read_le(bytes, at);
        let one: u32 = read_le(bytes, at + 4);
        Node { zero, one }
    }
}

/// Writes the record of `node` over record number `index` of `bytes`.
pub fn put_record(bytes: &mut [u8], index: usize, node: Node)
    requires
        8 * (index + 1) <= old(bytes)@.len(),
    ensures
        final(bytes)@ == old(bytes)@.subrange(0, 8 * index) + node.record() + old(bytes)@.subrange(
            8 * index + 8,
            old(bytes)@.len() as int,
        ),
        decode_table(final(bytes)@) == decode_table(old(bytes)@).update(index as int, node),
{
    let record: [u8; 8] = node.to_bytes();
    let total: usize = bytes.len();
    assert(8 * (index + 1) <= total);
    let at: usize = 8 * index;
    let mut j: usize = 0;
    while j < 8
        invariant
            j <= 8,
            at == 8 * index,
            at + 8 <= total,
            total == bytes@.len(),
            bytes@.len() == old(bytes)@.len(),
            record@ == node.record(),
            forall|p: int|
                0 <= p < total ==> #[trigger] bytes@[p] == (if at <= p < at + j {
                    node.record()[p - at]
                } else {
                    old(bytes)@[p]
                }),
        decreases 8 - j,
    {
        bytes[at + j] = record[j];
        j = j + 1;
    }
    proof {
        lemma_decode_update(old(bytes)@, index as int, node, bytes@);
        assert(bytes@ =~= old(bytes)@.subrange(0, 8 * index) + node.record() + old(
            bytes,
        )@.subrange(8 * index + 8, old(bytes)@.len() as int));
    }
}

/// Reads the little-endian 32-bit integer at byte `at` of `bytes`.
fn read_le(bytes: &[u8], at: usize) -> (x: u32)
    requires
        at + 4 <= bytes@.len(),
    ensures
        x == le_value(bytes@, at as int),
{
    let b0: u32 = bytes[at] as u32;
    let b1: u32 = bytes[at + 1] as u32;
    let b2: u32 = bytes[at + 2] as u32;
    let b3: u32 = bytes[at + 3] as u32;
    b0 + 256 * b1 + 65536 * b2 + 16777216 * b3
}

/// Whether a file of `byte_len` bytes holds no complete record, so that the
/// record of a root has to be written into it before it is used.
pub fn needs_root(byte_len: u64) -> (b: bool)
    ensures
        b == (byte_len < 8),
{
    byte_len < 8
}

/// The byte at which record number `index` starts in a file of records.
pub fn record_offset(index: u32) -> (at: u64)
    ensures
        at == 8 * index,
{
    8 * (index as u64)
}

/// Number of complete records in a file of `byte_len` bytes.
pub fn record_count(byte_len: usize) -> (n: u32)
    requires
        byte_len / 8 <= u32::MAX,
    ensures
        n == byte_len / 8,
{
    u32ize(byte_len / NODE_BYTES)
}

/// Narrows a count to the 32-bit index space.
pub fn u32ize(n: usize) -> (r: u32)
    requires
        n <= u32::MAX,
    ensures
        r == n,
{
    n as u32
}

/// Decoding the bytes of an integer gives the integer back.
pub proof fn lemma_le_round_trip(x: u32)
    ensures
        le_bytes(x).len() == 4,
        le_value(le_bytes(x), 0) == x,
{
}

/// A record decodes to the node it was made from.
pub proof fn lemma_record_round_trip(node: Node)
    ensures
        node.record().len() == 8,
        record_at(node.record(), 0) == node,
{
    lemma_le_round_trip(node.zero);
    lemma_le_round_trip(node.one);
}

/// Decoding what a node table encodes to gives the table back.
pub proof fn lemma_table_round_trip(nodes: Seq<Node>)
    ensures
        encode_table(nodes).len() == 8 * nodes.len(),
        decode_table(encode_table(nodes)) == nodes,
{
    let b = encode_table(nodes);
    assert forall|i: int| 0 <= i < nodes.len() implies record_at(b, 8 * i) == nodes[i] by {
        let node = nodes[i];
        lemma_record_round_trip(node);
        assert forall|j: int| 0 <= j < 8 implies b[8 * i + j] == #[trigger] node.record()[j] by {
            assert((8 * i + j) / 8 == i);
            assert((8 * i + j) % 8 == j);
        }
        assert(b[8 * i] == node.record()[0]);
        assert(b[8 * i + 1] == node.record()[1]);
        assert(b[8 * i + 2] == node.record()[2]);
        assert(b[8 * i + 3] == node.record()[3]);
        assert(b[8 * i + 4] == node.record()[4]);
        assert(b[8 * i + 5] == node.record()[5]);
        assert(b[8 * i + 6] == node.record()[6]);
        assert(b[8 * i + 7] == node.record()[7]);
    }
    assert(decode_table(b) =~= nodes);
}

/// Appending a node to a table appends its record to the encoding.
pub proof fn lemma_encode_push(nodes: Seq<Node>, node: Node)
    ensures
        encode_table(nodes.push(node)) == encode_table(nodes) + node.record(),
{
    let more = nodes.push(node);
    let left = encode_table(more);
    let right = encode_table(nodes) + node.record();
    assert(node.record().len() == 8);
    assert forall|p: int| 0 <= p < left.len() implies left[p] == right[p] by {
        if p < 8 * nodes.len() {
            assert(p / 8 < nodes.len());
            assert(more[p / 8] == nodes[p / 8]);
        } else {
            assert(p / 8 == nodes.len());
            assert(p % 8 == p - 8 * nodes.len());
        }
    }
    assert(left =~= right);
}

/// A record decodes to its node wherever it stands among other bytes.
pub proof fn lemma_record_at(b: Seq<u8>, at: int, node: Node)
    requires
        0 <= at,
        at + 8 <= b.len(),
        forall|j: int| 0 <= j < 8 ==> b[at + j] == #[trigger] node.record()[j],
    ensures
        record_at(b, at) == node,
{
    lemma_record_round_trip(node);
    let r = node.record();
    assert(b[at] == r[0]);
    assert(b[at + 1] == r[1]);
    assert(b[at + 2] == r[2]);
    assert(b[at + 3] == r[3]);
    assert(b[at + 4] == r[4]);
    assert(b[at + 5] == r[5]);
    assert(b[at + 6] == r[6]);
    assert(b[at + 7] == r[7]);
}

/// Overwriting record `i` of the bytes replaces node `i` of the table and
/// no other.
pub proof fn lemma_decode_update(b: Seq<u8>, i: int, node: Node, c: Seq<u8>)
    requires
        0 <= i,
        8 * (i + 1) <= b.len(),
        c.len() == b.len(),
        forall|p: int|
            0 <= p < b.len() ==> #[trigger] c[p] == (if 8 * i <= p < 8 * i + 8 {
                node.record()[p - 8 * i]
            } else {
                b[p]
            }),
    ensures
        decode_table(c) == decode_table(b).update(i, node),
{
    let left = decode_table(c);
    let right = decode_table(b).update(i, node);
    assert forall|k: int| 0 <= k < left.len() implies left[k] == right[k] by {
        if k == i {
            assert forall|j: int| 0 <= j < 8 implies c[8 * i + j] == #[trigger] node.record()[j] by {
                assert(c[8 * i + j] == node.record()[8 * i + j - 8 * i]);
            }
            lemma_record_at(c, 8 * i, node);
        } else {
            assert(c[8 * k] == b[8 * k]);
            assert(c[8 * k + 1] == b[8 * k + 1]);
            assert(c[8 * k + 2] == b[8 * k + 2]);
            assert(c[8 * k + 3] == b[8 * k + 3]);
            assert(c[8 * k + 4] == b[8 * k + 4]);
            assert(c[8 * k + 5] == b[8 * k + 5]);
            assert(c[8 * k + 6] == b[8 * k + 6]);
            assert(c[8 * k + 7] == b[8 * k + 7]);
        }
    }
    assert(left =~= right);
}

/// Writing a record after the last complete one appends its node to the
/// table.
pub proof fn lemma_decode_push(b: Seq<u8>, node: Node)
    ensures
        decode_table(b.subrange(0, 8 * (b.len() as int / 8)) + node.record()) == decode_table(
            b,
        ).push(node),
{
    let n = b.len() as int / 8;
    let c = b.subrange(0, 8 * n) + node.record();
    lemma_record_round_trip(node);
    assert(c.len() == 8 * n + 8);
    let left = decode_table(c);
    let right = decode_table(b).push(node);
    assert(left.len() == n + 1);
    assert forall|k: int| 0 <= k < left.len() implies left[k] == right[k] by {
        if k == n {
            assert forall|j: int| 0 <= j < 8 implies c[8 * n + j] == #[trigger] node.record()[j] by {}
            lemma_record_at(c, 8 * n, node);
        } else {
            assert(c[8 * k] == b[8 * k]);
            assert(c[8 * k + 1] == b[8 * k + 1]);
            assert(c[8 * k + 2] == b[8 * k + 2]);
            assert(c[8 * k + 3] == b[8 * k + 3]);
            assert(c[8 * k + 4] == b[8 * k + 4]);
            assert(c[8 * k + 5] == b[8 * k + 5]);
            assert(c[8 * k + 6] == b[8 * k + 6]);
            assert(c[8 * k + 7] == b[8 * k + 7]);
        }
    }
    assert(left =~= right);
}

/// Encoding the integer that four bytes decode to gives the bytes back.
pub proof fn lemma_le_bytes_of_value(b: Seq<u8>, at: int)
    requires
        0 <= at,
        at + 4 <= b.len(),
    ensures
        0 <= le_value(b, at) <= u32::MAX,
        le_bytes(le_value(b, at) as u32) == b.subrange(at, at + 4),
{
    let x = le_value(b, at);
    let b0 = b[at] as int;
    let b1 = b[at + 1] as int;
    let b2 = b[at + 2] as int;
    let b3 = b[at + 3] as int;
    assert(x == b0 + 256 * b1 + 65536 * b2 + 16777216 * b3);
    assert(x % 256 == b0);
    assert(x / 256 == b1 + 256 * b2 + 65536 * b3);
    assert((x / 256) % 256 == b1);
    assert(x / 65536 == b2 + 256 * b3);
    assert((x / 65536) % 256 == b2);
    assert(x / 16777216 == b3);
    assert(le_bytes(x as u32) =~= b.subrange(at, at + 4));
}

/// Encoding the table that whole records decode to gives the records back:
/// a file of whole records is the snapshot of the table it holds.
pub proof fn lemma_bytes_round_trip(b: Seq<u8>)
    requires
        b.len() % 8 == 0,
    ensures
        encode_table(decode_table(b)) == b,
{
    let nodes = decode_table(b);
    let back = encode_table(nodes);
    assert(back.len() == b.len());
    assert forall|p: int| 0 <= p < b.len() implies back[p] == b[p] by {
        let i = p / 8;
        let j = p % 8;
        lemma_le_bytes_of_value(b, 8 * i);
        lemma_le_bytes_of_value(b, 8 * i + 4);
        let record = nodes[i].record();
        assert(record == b.subrange(8 * i, 8 * i + 4) + b.subrange(8 * i + 4, 8 * i + 8));
        if j < 4 {
            assert(record[j] == b.subrange(8 * i, 8 * i + 4)[j]);
        } else {
            assert(record[j] == b.subrange(8 * i + 4, 8 * i + 8)[j - 4]);
        }
    }
    assert(back =~= b);
}

} // verus!
