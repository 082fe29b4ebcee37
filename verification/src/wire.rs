//! MAST forests on the wire: the format and its writer.
//!
//! A forest is written as a header (magic bytes, flags, version), the number of internal and of
//! external nodes, the procedure roots, the data of the basic blocks, one fixed-width entry per
//! node, the digests of the external nodes, the digests of the other nodes unless the payload is
//! hashless, and the advice map. Nothing follows.

use vstd::prelude::*;

use crate::batch::models;
use crate::block::{all_ops, block_bytes, lemma_ops_bytes_len, write_block};
use crate::bytes::{count_bytes, le_bytes, write_count, write_le};
use crate::felt::{Felt, Word};
use crate::forest::{dense, AdviceMap, AdviceModel, ForestModel, MastForest};
use crate::node::{entry_of, KindModel, MastNodeEntry, MastNodeId, NodeKind, NodeModel};

verus! {

/// Flag of payloads that leave out the digests of internal nodes.
pub const FLAG_HASHLESS: u8 = 0x02;

// MODEL
// ================================================================================================

/// The magic bytes, the flags and the version.
pub open spec fn header_bytes(hashless: bool) -> Seq<u8> {
    seq![
        0x4du8,
        0x41u8,
        0x53u8,
        0x54u8,
        if hashless {
            FLAG_HASHLESS
        } else {
            0u8
        },
        0u8,
        0u8,
        4u8,
    ]
}

/// A word on the wire: its elements, eight bytes each.
pub open spec fn word_bytes(word: Word) -> Seq<u8> {
    le_bytes(word.w0.value as nat, 8) + (le_bytes(word.w1.value as nat, 8) + (le_bytes(
        word.w2.value as nat,
        8,
    ) + le_bytes(word.w3.value as nat, 8)))
}

/// Number of external nodes among the first `k`.
pub open spec fn externals_before(nodes: Seq<NodeModel>, k: nat) -> nat
    decreases k,
{
    if k == 0 {
        0
    } else {
        externals_before(nodes, (k - 1) as nat) + if nodes[k - 1].kind is External {
            1nat
        } else {
            0nat
        }
    }
}

/// Procedure roots on the wire.
pub open spec fn roots_bytes(roots: Seq<MastNodeId>) -> Seq<u8>
    decreases roots.len(),
{
    if roots.len() == 0 {
        Seq::empty()
    } else {
        roots_bytes(roots.drop_last()) + le_bytes(roots.last().0 as nat, 4)
    }
}

/// The data of the basic blocks among the first `k` nodes.
pub open spec fn block_data(nodes: Seq<NodeModel>, k: nat) -> Seq<u8>
    decreases k,
{
    if k == 0 {
        Seq::empty()
    } else {
        match nodes[k - 1].kind {
            KindModel::Block(batches) => block_data(nodes, (k - 1) as nat) + block_bytes(batches),
            _ => block_data(nodes, (k - 1) as nat),
        }
    }
}

/// The entry of node `i`. The data of a block starts behind that of the blocks before it.
pub open spec fn wire_entry(nodes: Seq<NodeModel>, i: int) -> MastNodeEntry {
    entry_of(nodes[i].kind, block_data(nodes, i as nat).len() as u32)
}

/// The entries of the first `k` nodes on the wire.
pub open spec fn entries_bytes(nodes: Seq<NodeModel>, k: nat) -> Seq<u8>
    decreases k,
{
    if k == 0 {
        Seq::empty()
    } else {
        entries_bytes(nodes, (k - 1) as nat) + le_bytes(wire_entry(nodes, k - 1).packed(), 8)
    }
}

/// The digests of those among the first `k` nodes that are external, or of those that are not.
pub open spec fn digests_bytes(nodes: Seq<NodeModel>, external: bool, k: nat) -> Seq<u8>
    decreases k,
{
    if k == 0 {
        Seq::empty()
    } else if (nodes[k - 1].kind is External) == external {
        digests_bytes(nodes, external, (k - 1) as nat) + word_bytes(nodes[k - 1].digest)
    } else {
        digests_bytes(nodes, external, (k - 1) as nat)
    }
}

/// Field elements on the wire, eight bytes each.
pub open spec fn felts_bytes(felts: Seq<Felt>) -> Seq<u8>
    decreases felts.len(),
{
    if felts.len() == 0 {
        Seq::empty()
    } else {
        felts_bytes(felts.drop_last()) + le_bytes(felts.last().value as nat, 8)
    }
}

/// Entries of an advice map on the wire: the key, the number of values and the values.
pub open spec fn advice_entries_bytes(entries: AdviceModel) -> Seq<u8>
    decreases entries.len(),
{
    if entries.len() == 0 {
        Seq::empty()
    } else {
        let (key, values) = entries.last();
        advice_entries_bytes(entries.drop_last()) + (word_bytes(key) + (count_bytes(values.len())
            + felts_bytes(values)))
    }
}

/// An advice map on the wire.
pub open spec fn advice_bytes(entries: AdviceModel) -> Seq<u8> {
    count_bytes(entries.len()) + advice_entries_bytes(entries)
}

/// The digests of internal nodes, where the payload holds them.
pub open spec fn hashes_bytes(nodes: Seq<NodeModel>, hashless: bool) -> Seq<u8> {
    if hashless {
        Seq::empty()
    } else {
        digests_bytes(nodes, false, nodes.len())
    }
}

/// A forest on the wire.
pub open spec fn forest_bytes(forest: ForestModel, hashless: bool) -> Seq<u8> {
    let nodes = forest.nodes;
    let n = nodes.len();
    let external = externals_before(nodes, n);
    header_bytes(hashless) + (count_bytes((n - external) as nat) + (count_bytes(external) + (
    count_bytes(forest.roots.len()) + (roots_bytes(forest.roots) + (count_bytes(
        block_data(nodes, n).len(),
    ) + (block_data(nodes, n) + (entries_bytes(nodes, n) + (digests_bytes(nodes, true, n) + (
    hashes_bytes(nodes, hashless) + advice_bytes(forest.advice_map))))))))))
}

/// Forests that can be written: well formed, in dense order, with block data that four-byte
/// offsets reach.
pub open spec fn serializable(forest: ForestModel) -> bool {
    &&& forest.wf()
    &&& dense(forest.nodes)
    &&& block_data(forest.nodes, forest.nodes.len()).len() <= u32::MAX
}

pub proof fn lemma_externals_bound(nodes: Seq<NodeModel>, k: nat)
    ensures
        externals_before(nodes, k) <= k,
    decreases k,
{
    if k > 0 {
        lemma_externals_bound(nodes, (k - 1) as nat);
    }
}

pub proof fn lemma_block_data_monotone(nodes: Seq<NodeModel>, i: nat, k: nat)
    requires
        i <= k,
    ensures
        block_data(nodes, i).len() <= block_data(nodes, k).len(),
    decreases k,
{
    if i < k {
        lemma_block_data_monotone(nodes, i, (k - 1) as nat);
    }
}

/// The entries of a well-formed forest can be packed.
pub proof fn lemma_entry_wf(forest: ForestModel, i: int)
    requires
        forest.wf(),
        0 <= i < forest.nodes.len(),
    ensures
        wire_entry(forest.nodes, i).wf(),
        entry_of(forest.nodes[i].kind, 0).wf(),
{
    let kind = forest.nodes[i].kind;
    assert(children_below_of(kind, i));
    let c = kind.children();
    assert(c.len() > 0 ==> c[0].0 < i);
    assert(c.len() > 1 ==> c[1].0 < i);
}

spec fn children_below_of(kind: KindModel, i: int) -> bool {
    crate::node::children_below(kind, i)
}

/// Appending pieces one by one appends their concatenation.
proof fn lemma_pieces(before: Seq<u8>, p1: Seq<u8>, p2: Seq<u8>, p3: Seq<u8>, p4: Seq<u8>, p5: Seq<u8>, p6: Seq<u8>, p7: Seq<u8>, p8: Seq<u8>, p9: Seq<u8>, p10: Seq<u8>, p11: Seq<u8>)
    ensures
        (((((((((((before + p1) + p2) + p3) + p4) + p5) + p6) + p7) + p8) + p9) + p10) + p11) == before + (p1 + (p2 + (p3 + (p4 + (p5 + (p6 + (p7 + (p8 + (p9 + (p10 + p11)))))))))),
{
    assert((((((((((((before + p1) + p2) + p3) + p4) + p5) + p6) + p7) + p8) + p9) + p10) + p11) =~= before + (p1 + (p2 + (p3 + (p4 + (p5 + (p6 + (p7 + (p8 + (p9 + (p10 + p11)))))))))));
}

// WRITER
// ================================================================================================

/// Appends a word.
pub fn write_word(out: &mut Vec<u8>, word: Word)
    ensures
        final(out)@ == old(out)@ + word_bytes(word),
{
    let ghost before = out@;
    write_le(out, word.w0.value, 8);
    write_le(out, word.w1.value, 8);
    write_le(out, word.w2.value, 8);
    write_le(out, word.w3.value, 8);
    assert(out@ =~= before + word_bytes(word));
}

fn write_felts(out: &mut Vec<u8>, felts: &Vec<Felt>)
    ensures
        final(out)@ == old(out)@ + felts_bytes(felts@),
{
    let ghost before = out@;
    let mut i: usize = 0;
    assert(before + felts_bytes(felts@.take(0)) =~= before);
    while i < felts.len()
        invariant
            i <= felts.len(),
            out@ == before + felts_bytes(felts@.take(i as int)),
        decreases felts.len() - i,
    {
        write_le(out, felts[i].value, 8);
        assert(felts@.take(i + 1).drop_last() =~= felts@.take(i as int));
        assert(out@ =~= before + felts_bytes(felts@.take(i + 1)));
        i += 1;
    }
    assert(felts@.take(i as int) =~= felts@);
}

/// Appends an advice map.
pub fn write_advice_map(out: &mut Vec<u8>, map: &AdviceMap)
    ensures
        final(out)@ == old(out)@ + advice_bytes(map@),
{
    let ghost before = out@;
    let ghost model = map@;
    write_count(out, map.entries.len() as u64);
    let ghost head = out@;
    let mut i: usize = 0;
    assert(head + advice_entries_bytes(model.take(0)) =~= head);
    while i < map.entries.len()
        invariant
            i <= map.entries.len(),
            model == map@,
            out@ == head + advice_entries_bytes(model.take(i as int)),
        decreases map.entries.len() - i,
    {
        let ghost earlier = out@;
        write_word(out, map.entries[i].key);
        write_count(out, map.entries[i].values.len() as u64);
        write_felts(out, &map.entries[i].values);
        proof {
            let next = model.take(i + 1);
            assert(next.drop_last() =~= model.take(i as int));
            assert(next.last() == model[i as int]);
            let (key, values) = model[i as int];
            assert(out@ =~= earlier + (word_bytes(key) + (count_bytes(values.len()) + felts_bytes(
                values,
            ))));
            assert(out@ =~= head + advice_entries_bytes(next));
        }
        i += 1;
    }
    assert(model.take(i as int) =~= model);
    assert(out@ =~= before + advice_bytes(model));
}

fn append(out: &mut Vec<u8>, part: &Vec<u8>)
    ensures
        final(out)@ == old(out)@ + part@,
{
    let ghost before = out@;
    let mut i: usize = 0;
    while i < part.len()
        invariant
            i <= part.len(),
            out@ =~= before + part@.take(i as int),
        decreases part.len() - i,
    {
        out.push(part[i]);
        i += 1;
    }
    assert(part@.take(i as int) =~= part@);
}

impl MastForest {
    /// Appends the forest, with the digests of internal nodes unless `hashless`.
    ///
    /// The nodes are written in the order in which they stand.
    pub fn write_into_with_options(&self, target: &mut Vec<u8>, hashless: bool)
        requires
            serializable(self@),
        ensures
            final(target)@ == old(target)@ + forest_bytes(self@, hashless),
    {
        let ghost before = target@;
        let ghost nodes = self@.nodes;
        let n: usize = self.nodes.len();
        target.push(0x4d);
        target.push(0x41);
        target.push(0x53);
        target.push(0x54);
        target.push(
            if hashless {
                FLAG_HASHLESS
            } else {
                0
            },
        );
        target.push(0);
        target.push(0);
        target.push(4);
        assert(target@ =~= before + header_bytes(hashless));

        let mut entries: Vec<u8> = Vec::new();
        let mut data: Vec<u8> = Vec::new();
        let mut external_digests: Vec<u8> = Vec::new();
        let mut node_hashes: Vec<u8> = Vec::new();
        let mut external: usize = 0;
        let mut i: usize = 0;
        while i < n
            invariant
                i <= n == self.nodes@.len(),
                nodes == self@.nodes,
                serializable(self@),
                external <= i,
                external == externals_before(nodes, i as nat),
                entries@ == entries_bytes(nodes, i as nat),
                data@ == block_data(nodes, i as nat),
                external_digests@ == digests_bytes(nodes, true, i as nat),
                node_hashes@ == if hashless {
                    Seq::<u8>::empty()
                } else {
                    digests_bytes(nodes, false, i as nat)
                },
            decreases n - i,
        {
            let node = &self.nodes[i];
            assert(nodes[i as int] == node@);
            proof {
                lemma_block_data_monotone(nodes, i as nat, n as nat);
                lemma_block_data_monotone(nodes, (i + 1) as nat, n as nat);
                lemma_entry_wf(self@, i as int);
                assert(self@.nodes[i as int].wf());
            }
            let entry = MastNodeEntry::new(node, data.len() as u32);
            write_le(&mut entries, entry.to_packed(), 8);
            if let NodeKind::Block(batches) = &node.kind {
                proof {
                    let bs = models(batches@);
                    lemma_ops_bytes_len(all_ops(bs));
                    assert(block_bytes(bs).len() >= all_ops(bs).len());
                    assert(block_data(nodes, (i + 1) as nat).len() >= block_bytes(bs).len());
                }
                let _limit: usize = data.len();
                write_block(batches, &mut data);
            }
            if node.is_external() {
                write_word(&mut external_digests, node.digest);
                external = external + 1;
            } else if !hashless {
                write_word(&mut node_hashes, node.digest);
            }
            i += 1;
        }

        write_count(target, (n - external) as u64);
        write_count(target, external as u64);
        write_count(target, self.roots.len() as u64);
        let ghost head = target@;
        let mut i: usize = 0;
        assert(head + roots_bytes(self.roots@.take(0)) =~= head);
        while i < self.roots.len()
            invariant
                i <= self.roots.len(),
                target@ == head + roots_bytes(self.roots@.take(i as int)),
            decreases self.roots.len() - i,
        {
            write_le(target, self.roots[i].0 as u64, 4);
            assert(self.roots@.take(i + 1).drop_last() =~= self.roots@.take(i as int));
            assert(target@ =~= head + roots_bytes(self.roots@.take(i + 1)));
            i += 1;
        }
        assert(self.roots@.take(i as int) =~= self.roots@);
        write_count(target, data.len() as u64);
        append(target, &data);
        append(target, &entries);
        append(target, &external_digests);
        append(target, &node_hashes);
        write_advice_map(target, &self.advice_map);
        proof {
            lemma_pieces(
                before,
                header_bytes(hashless),
                count_bytes((n - external) as nat),
                count_bytes(external as nat),
                count_bytes(self.roots@.len()),
                roots_bytes(self.roots@),
                count_bytes(block_data(nodes, n as nat).len()),
                block_data(nodes, n as nat),
                entries_bytes(nodes, n as nat),
                digests_bytes(nodes, true, n as nat),
                hashes_bytes(nodes, hashless),
                advice_bytes(self.advice_map@),
            );
        }
    }

    /// Appends the forest with all digests.
    pub fn write_into(&self, target: &mut Vec<u8>)
        requires
            serializable(self@),
        ensures
            final(target)@ == old(target)@ + forest_bytes(self@, false),
    {
        self.write_into_with_options(target, false);
    }

    /// Appends the forest without the digests of internal nodes.
    pub fn write_hashless(&self, target: &mut Vec<u8>)
        requires
            serializable(self@),
        ensures
            final(target)@ == old(target)@ + forest_bytes(self@, true),
    {
        write_hashless_into(self, target);
    }

    /// The bytes of the forest with all digests.
    pub fn to_bytes(&self) -> (bytes: Vec<u8>)
        requires
            serializable(self@),
        ensures
            bytes@ == forest_bytes(self@, false),
    {
        let mut bytes: Vec<u8> = Vec::new();
        self.write_into(&mut bytes);
        assert(bytes@ =~= forest_bytes(self@, false));
        bytes
    }
}

/// Appends a forest without the digests of internal nodes.
pub fn write_hashless_into(forest: &MastForest, target: &mut Vec<u8>)
    requires
        serializable(forest@),
    ensures
        final(target)@ == old(target)@ + forest_bytes(forest@, true),
{
    forest.write_into_with_options(target, true);
}

} // verus!
