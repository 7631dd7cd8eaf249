//! The persistent form of the node table: the bytes of a trie file.
//!
//! The bytes are those of a file of records, as a memory mapping of the file
//! presents them. Nodes are decoded from and encoded into the bytes at the
//! offset of their record; the bytes are never read as nodes in place.

use crate::node::{decode_table, encode_table, needs_root, put_record, record_count, record_offset, Node};
use crate::node::{lemma_bytes_round_trip, lemma_decode_push, lemma_record_round_trip};
use crate::paths::contents;
use crate::storage::HashTreeStorage;
use vstd::prelude::*;

verus! {

/// A node table kept as the bytes of its records.
pub struct FileMap {
    pub bytes: Vec<u8>,
}

impl HashTreeStorage for FileMap {
    /// The bytes that the file holds when it is opened; none for a new file.
    type Data = Vec<u8>;

    open spec fn nodes(&self) -> Seq<Node> {
        decode_table(self.bytes@)
    }

    open spec fn accepts(data: Vec<u8>) -> bool {
        data@.len() / 8 <= u32::MAX
    }

    open spec fn opens(data: Vec<u8>, nodes: Seq<Node>) -> bool {
        nodes == if data@.len() < 8 {
            seq![Node { zero: 0, one: 0 }]
        } else {
            decode_table(data@)
        }
    }

    /// Opens the table held in `data`; bytes that hold no complete record
    /// are replaced by the record of a childless root.
    fn new(data: Vec<u8>) -> (store: Self)
        ensures
            store.bytes@ == if data@.len() < 8 {
                (Node { zero: 0, one: 0 }).record()
            } else {
                data@
            },
    {
        if needs_root(data.len() as u64) {
            let bytes: Vec<u8> = vec![0u8; 8];
            proof {
                let root = Node { zero: 0, one: 0 };
                assert(bytes@ =~= root.record());
                lemma_record_round_trip(root);
                assert(decode_table(bytes@) =~= seq![root]);
            }
            FileMap { bytes }
        } else {
            FileMap { bytes: data }
        }
    }

    /// Decodes record `index`.
    fn get(&self, index: u32) -> (node: Node) {
        Node::from_bytes(self.bytes.as_slice(), index as usize)
    }

    /// Writes the record of `node` over record `index`.
    fn set(&mut self, index: u32, node: Node)
        ensures
            final(self).bytes@ == old(self).bytes@.subrange(0, 8 * index) + node.record() + old(
                self,
            ).bytes@.subrange(8 * index + 8, old(self).bytes@.len() as int),
    {
        put_record(self.bytes.as_mut_slice(), index as usize, node);
    }

    /// Writes the record of `node` after the last whole record and returns
    /// its number; the bytes are whole records from then on.
    fn push(&mut self, node: Node) -> (index: u32)
        ensures
            final(self).bytes@ == old(self).bytes@.subrange(0, 8 * (old(self).bytes@.len() as int
                / 8)) + node.record(),
            final(self).bytes@.len() == 8 * final(self).nodes().len(),
    {
        let record: [u8; 8] = node.to_bytes();
        let index: u32 = record_count(self.bytes.len());
        let end: u64 = record_offset(index);
        self.bytes.truncate(end as usize);
        self.bytes.extend_from_slice(vstd::array::array_as_slice(&record));
        proof {
            lemma_decode_push(old(self).bytes@, node);
        }
        index
    }

    /// Number of whole records.
    fn len(&self) -> (n: u32) {
        record_count(self.bytes.len())
    }
}

/// A table that is opened again from the bytes it was left in is the table
/// that was left, and so stores what was stored.
pub proof fn lemma_reopen(store: FileMap, again: FileMap)
    requires
        1 <= store.nodes().len() <= u32::MAX,
        FileMap::opens(store.bytes, again.nodes()),
    ensures
        FileMap::accepts(store.bytes),
        again.nodes() == store.nodes(),
        contents(again.nodes()) == contents(store.nodes()),
{
}

/// Bytes that are whole records are the snapshot of the table they hold.
pub proof fn lemma_bytes_are_snapshot(store: FileMap)
    requires
        store.bytes@.len() % 8 == 0,
    ensures
        store.bytes@ == encode_table(store.nodes()),
{
    lemma_bytes_round_trip(store.bytes@);
}

} // verus!
