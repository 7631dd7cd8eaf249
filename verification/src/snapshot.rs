//! The in-memory trie as a flat sequence of records, and back.
//!
//! A snapshot is the node table written out record by record, in table
//! order. Reading one in checks nothing about the structure it holds.

use crate::node::{decode_table, encode_table, Node};
use crate::node::{lemma_encode_push, lemma_table_round_trip};
use crate::growth::{fits, planted_all};
use crate::growth::{lemma_fits_prefix, lemma_planted_all, lemma_planted_len};
use crate::paths::{contents, tree_shaped};
use crate::paths::lemma_root_alone;
use crate::trie::HashTrie;
use vstd::prelude::*;

verus! {

/// A trie read in from the snapshot of a table has that table, and so
/// stores what the table stored.
pub proof fn lemma_snapshot_round_trip(nodes: Seq<Node>)
    ensures
        decode_table(encode_table(nodes)) == nodes,
        contents(decode_table(encode_table(nodes))) == contents(nodes),
{
    lemma_table_round_trip(nodes);
}

impl HashTrie<Vec<Node>> {
    /// Rebuilds a trie from the bytes of a snapshot: one node for each
    /// complete record, a trailing partial record being left out.
    pub fn read_in(bytes: &[u8]) -> (trie: Self)
        ensures
            trie.nodes() == decode_table(bytes@),
    {
        let count: usize = bytes.len() / 8;
        let mut haystack: Vec<Node> = Vec::new();
        let mut index: usize = 0;
        while index < count
            invariant
                index <= count,
                count == bytes@.len() / 8,
                haystack@ == decode_table(bytes@).take(index as int),
            decreases count - index,
        {
            let node: Node = Node::from_bytes(bytes, index);
            haystack.push(node);
            assert(haystack@ =~= decode_table(bytes@).take(index + 1));
            index = index + 1;
        }
        assert(haystack@ =~= decode_table(bytes@));
        HashTrie { haystack }
    }

    /// The bytes of a snapshot of this trie: the record of every node, in
    /// table order.
    pub fn write_out(&self) -> (bytes: Vec<u8>)
        ensures
            bytes@ == encode_table(self.nodes()),
    {
        let count: usize = self.haystack.len();
        let mut bytes: Vec<u8> = Vec::new();
        let mut index: usize = 0;
        assert(bytes@ =~= encode_table(self.nodes().take(0)));
        while index < count
            invariant
                index <= count,
                count == self.nodes().len(),
                bytes@ == encode_table(self.nodes().take(index as int)),
            decreases count - index,
        {
            let record: [u8; 8] = self.haystack[index].to_bytes();
            bytes.extend_from_slice(vstd::array::array_as_slice(&record));
            proof {
                lemma_encode_push(self.nodes().take(index as int), self.nodes()[index as int]);
                assert(self.nodes().take(index + 1) =~= self.nodes().take(index as int).push(
                    self.nodes()[index as int],
                ));
            }
            index = index + 1;
        }
        assert(self.nodes().take(count as int) =~= self.nodes());
        bytes
    }

    /// Makes a trie that stores the given fingerprints, stored one by one in
    /// the order in which they are given.
    pub fn from_iter(hashes: &[u64]) -> (trie: Self)
        requires
            fits(seq![Node { zero: 0, one: 0 }], hashes@),
        ensures
            trie.wf(),
            trie@ == hashes@.to_set(),
            trie.nodes() == planted_all(seq![Node { zero: 0, one: 0 }], hashes@),
    {
        let ghost root = seq![Node { zero: 0, one: 0 }];
        let mut trie: HashTrie<Vec<Node>> = HashTrie::new(());
        proof {
            lemma_root_alone(root);
            assert(hashes@.take(0) =~= Seq::<u64>::empty());
            lemma_fits_prefix(root, hashes@, 0);
        }
        let mut index: usize = 0;
        while index < hashes.len()
            invariant
                index <= hashes@.len(),
                root == seq![Node { zero: 0, one: 0 }],
                tree_shaped(root),
                fits(root, hashes@),
                trie.wf(),
                trie.nodes() == planted_all(root, hashes@.take(index as int)),
            decreases hashes@.len() - index,
        {
            let hash: u64 = hashes[index];
            proof {
                let before = hashes@.take(index as int);
                let with = hashes@.take(index + 1);
                assert(with.drop_last() =~= before);
                assert(with.last() == hash);
                lemma_fits_prefix(root, hashes@, index + 1);
                lemma_planted_len(trie.nodes(), hash);
            }
            trie.insert(hash);
            index = index + 1;
        }
        proof {
            assert(hashes@.take(index as int) =~= hashes@);
            lemma_planted_all(root, hashes@);
            assert(contents(root) + hashes@.to_set() =~= hashes@.to_set());
        }
        trie
    }
}

} // verus!
