//! What is read back of what was written.

use vstd::prelude::*;

use crate::block::{block_bytes, law_block_round_trip};
use crate::bytes::{
    count_bytes, encoded_len, holds_at, law_count_round_trip, law_le_round_trip, le_bytes,
    lemma_count_bytes_len, lemma_holds_at_split, lemma_le_bytes_len, lemma_pow256_values,
};
use crate::error::{DeserializationError, InvalidValue};
use crate::felt::{Felt, Word};
use crate::forest::{
    bare_entries, canonical, dense, digests_of, inserted, rank, sorted, AdviceModel, ForestModel,
    MastForest,
};
use crate::layout::{
    advice_at, advice_entries_at, available, bounded_count_at, felts_at, header_at, layout_at,
    node_counts_at, refused, section_end, sections_at, word_at, ForestLayout,
};
use crate::node::{
    children_below, digest_in, entry_of, law_entry_round_trip, KindModel, MastNodeEntry,
    MastNodeId, NodeModel,
};
use crate::operation::lemma_felt_round_trip;
use crate::read::{
    decoded, digest_at, entries_upto, entry_at, external_entries, externals_upto, kind_at,
    lemma_described_order, lemma_external_entries, materialized, nodes_upto, ordered,
    placed_digests, resolved, root_at, roots_upto, trusted, trusted_limit,
};
use crate::untrusted::{budgeted, forest_fault, validated, validation_charge};
use crate::view::{viewed, MastForestView, MastForestWireView};
use crate::wire::{
    advice_bytes, advice_entries_bytes, block_data, digests_bytes, entries_bytes, externals_before,
    felts_bytes, forest_bytes, hashes_bytes, header_bytes, lemma_block_data_monotone,
    lemma_entry_wf, lemma_externals_bound, roots_bytes, serializable, wire_entry, word_bytes,
};

verus! {

// ADVICE MAPS
// ================================================================================================

/// The entries of an advice map end behind where they start.
pub proof fn lemma_advice_entries_advance(
    bytes: Seq<u8>,
    limit: Option<usize>,
    at: nat,
    n: nat,
)
    ensures
        advice_entries_at(bytes, limit, at, n) is Ok ==> advice_entries_at(
            bytes,
            limit,
            at,
            n,
        )->Ok_0.1 >= at,
    decreases n,
{
    if n > 0 {
        lemma_advice_entries_advance(bytes, limit, at, (n - 1) as nat);
    }
}

/// An advice map ends behind where it starts.
pub proof fn lemma_advice_advances(bytes: Seq<u8>, limit: Option<usize>, at: nat)
    ensures
        advice_at(bytes, limit, at) is Ok ==> advice_at(bytes, limit, at)->Ok_0.1 >= at,
{
    if let Ok((n, start)) = bounded_count_at(bytes, limit, at, 33) {
        lemma_advice_entries_advance(bytes, limit, start, n);
    }
}

pub proof fn lemma_word_bytes_len(word: Word)
    ensures
        word_bytes(word).len() == 32,
{
    lemma_le_bytes_len(word.w0.value as nat, 8);
    lemma_le_bytes_len(word.w1.value as nat, 8);
    lemma_le_bytes_len(word.w2.value as nat, 8);
    lemma_le_bytes_len(word.w3.value as nat, 8);
}

/// A word that was written at an offset is read there.
pub proof fn lemma_word_round_trip(bytes: Seq<u8>, at: nat, word: Word)
    requires
        word.wf(),
        bytes.len() <= usize::MAX,
        holds_at(bytes, at as int, word_bytes(word)),
    ensures
        word_at(bytes, at) == Ok::<Word, DeserializationError>(word),
{
    let a = le_bytes(word.w0.value as nat, 8);
    let b = le_bytes(word.w1.value as nat, 8);
    let c = le_bytes(word.w2.value as nat, 8);
    let d = le_bytes(word.w3.value as nat, 8);
    lemma_le_bytes_len(word.w0.value as nat, 8);
    lemma_le_bytes_len(word.w1.value as nat, 8);
    lemma_le_bytes_len(word.w2.value as nat, 8);
    lemma_le_bytes_len(word.w3.value as nat, 8);
    lemma_holds_at_split(bytes, at as int, a, b + (c + d));
    lemma_holds_at_split(bytes, (at + 8) as int, b, c + d);
    lemma_holds_at_split(bytes, (at + 16) as int, c, d);
    lemma_felt_round_trip(bytes, at, word.w0);
    lemma_felt_round_trip(bytes, at + 8, word.w1);
    lemma_felt_round_trip(bytes, at + 16, word.w2);
    lemma_felt_round_trip(bytes, at + 24, word.w3);
}

proof fn lemma_felts_round_trip(bytes: Seq<u8>, at: nat, felts: Seq<Felt>)
    requires
        forall|i: int| 0 <= i < felts.len() ==> (#[trigger] felts[i]).wf(),
        bytes.len() <= usize::MAX,
        holds_at(bytes, at as int, felts_bytes(felts)),
    ensures
        felts_at(bytes, at, felts.len()) == Ok::<Seq<Felt>, DeserializationError>(felts),
        felts_bytes(felts).len() == 8 * felts.len(),
    decreases felts.len(),
{
    if felts.len() > 0 {
        let front = felts.drop_last();
        let last = felts.last();
        lemma_holds_at_split(bytes, at as int, felts_bytes(front), le_bytes(last.value as nat, 8));
        lemma_felts_round_trip(bytes, at, front);
        lemma_le_bytes_len(last.value as nat, 8);
        lemma_felt_round_trip(bytes, at + felts_bytes(front).len(), last);
        assert(front.push(last) =~= felts);
    } else {
        assert(felts =~= Seq::<Felt>::empty());
    }
}

/// The reader may allocate whatever the bytes can hold.
pub open spec fn roomy(limit: Option<usize>, len: nat) -> bool {
    match limit {
        None => true,
        Some(l) => l >= len,
    }
}

proof fn lemma_available(limit: Option<usize>, len: nat, at: nat, n: nat, size: nat)
    requires
        roomy(limit, len),
        size > 0,
        at + n * size <= len <= usize::MAX,
    ensures
        n <= available(limit, at, size),
{
    if let Some(l) = limit {
        vstd::arithmetic::div_mod::lemma_div_is_ordered((n * size) as int, l - at, size as int);
        vstd::arithmetic::div_mod::lemma_div_by_multiple(n as int, size as int);
    } else {
        assert(n <= n * size) by (nonlinear_arith)
            requires
                size > 0,
        ;
    }
}

proof fn lemma_bounded_count(
    bytes: Seq<u8>,
    limit: Option<usize>,
    at: nat,
    n: nat,
    size: nat,
)
    requires
        bytes.len() <= usize::MAX,
        roomy(limit, bytes.len()),
        size > 0,
        holds_at(bytes, at as int, count_bytes(n)),
        at + encoded_len(n) + n * size <= bytes.len(),
    ensures
        bounded_count_at(bytes, limit, at, size) == Ok::<(nat, nat), DeserializationError>(
            (n, at + encoded_len(n)),
        ),
{
    assert(n <= n * size) by (nonlinear_arith)
        requires
            size > 0,
    ;
    law_count_round_trip(bytes, at, n);
    lemma_available(limit, bytes.len(), at + encoded_len(n), n, size);
}

/// A key behind all others goes to the end.
proof fn lemma_insert_last(entries: AdviceModel, key: Word, values: Seq<Felt>)
    requires
        forall|i: int| 0 <= i < entries.len() ==> (#[trigger] entries[i]).0.lt_spec(key),
    ensures
        inserted(entries, key, values) == entries.push((key, values)),
{
    lemma_rank_all(entries, key, entries.len());
    assert(entries.insert(entries.len() as int, (key, values)) =~= entries.push((key, values)));
}

proof fn lemma_rank_all(entries: AdviceModel, key: Word, k: nat)
    requires
        k <= entries.len(),
        forall|i: int| 0 <= i < entries.len() ==> (#[trigger] entries[i]).0.lt_spec(key),
    ensures
        rank(entries, key, k) == k,
    decreases k,
{
    if k > 0 {
        lemma_rank_all(entries, key, (k - 1) as nat);
        assert(entries[k - 1].0.lt_spec(key));
    }
}

proof fn lemma_advice_entries_len(entries: AdviceModel)
    ensures
        advice_entries_bytes(entries).len() >= 33 * entries.len(),
    decreases entries.len(),
{
    if entries.len() > 0 {
        lemma_advice_entries_len(entries.drop_last());
        let (key, values) = entries.last();
        lemma_word_bytes_len(key);
        lemma_count_bytes_len(values.len());
    }
}

proof fn lemma_advice_entries_round_trip(
    bytes: Seq<u8>,
    limit: Option<usize>,
    at: nat,
    entries: AdviceModel,
)
    requires
        sorted(entries),
        canonical(entries),
        bytes.len() <= usize::MAX,
        roomy(limit, bytes.len()),
        holds_at(bytes, at as int, advice_entries_bytes(entries)),
    ensures
        advice_entries_at(bytes, limit, at, entries.len()) == Ok::<
            (AdviceModel, nat),
            DeserializationError,
        >((entries, at + advice_entries_bytes(entries).len())),
    decreases entries.len(),
{
    if entries.len() > 0 {
        let front = entries.drop_last();
        let last = entries[entries.len() - 1];
        let (key, values) = last;
        let a = word_bytes(key);
        let b = count_bytes(values.len());
        let c = felts_bytes(values);
        lemma_holds_at_split(bytes, at as int, advice_entries_bytes(front), a + (b + c));
        assert(canonical(front)) by {
            assert forall|i: int| 0 <= i < front.len() implies (#[trigger] front[i]).0.wf()
                && forall|j: int|
                0 <= j < front[i].1.len() ==> (#[trigger] front[i].1[j]).wf() by {
                assert(front[i] == entries[i]);
            }
        }
        lemma_advice_entries_round_trip(bytes, limit, at, front);
        let end = at + advice_entries_bytes(front).len();
        lemma_holds_at_split(bytes, end as int, a, b + c);
        lemma_word_bytes_len(key);
        lemma_holds_at_split(bytes, (end + 32) as int, b, c);
        lemma_word_round_trip(bytes, end, key);
        lemma_count_bytes_len(values.len());
        let start = end + 32 + b.len();
        assert(forall|i: int| 0 <= i < values.len() ==> (#[trigger] values[i]).wf());
        lemma_felts_round_trip(bytes, start, values);
        lemma_bounded_count(bytes, limit, end + 32, values.len(), 8);
        assert forall|i: int| 0 <= i < front.len() implies (#[trigger] front[i]).0.lt_spec(key) by {
            assert(entries[i].0.lt_spec(entries[entries.len() - 1].0));
        }
        lemma_insert_last(front, key, values);
        assert(front.push(last) =~= entries);
    } else {
        assert(entries =~= Seq::<(Word, Seq<Felt>)>::empty());
    }
}

/// An advice map that was written at an offset is read there.
pub proof fn law_advice_round_trip(
    bytes: Seq<u8>,
    limit: Option<usize>,
    at: nat,
    entries: AdviceModel,
)
    requires
        sorted(entries),
        canonical(entries),
        bytes.len() <= usize::MAX,
        roomy(limit, bytes.len()),
        holds_at(bytes, at as int, advice_bytes(entries)),
    ensures
        advice_at(bytes, limit, at) == Ok::<(AdviceModel, nat), DeserializationError>(
            (entries, at + advice_bytes(entries).len()),
        ),
{
    let a = count_bytes(entries.len());
    let b = advice_entries_bytes(entries);
    lemma_holds_at_split(bytes, at as int, a, b);
    lemma_count_bytes_len(entries.len());
    lemma_advice_entries_len(entries);
    lemma_bounded_count(bytes, limit, at, entries.len(), 33);
    lemma_advice_entries_round_trip(bytes, limit, at + a.len(), entries);
}

// LAYOUT
// ================================================================================================

proof fn lemma_roots_len(roots: Seq<MastNodeId>)
    ensures
        roots_bytes(roots).len() == 4 * roots.len(),
    decreases roots.len(),
{
    if roots.len() > 0 {
        lemma_roots_len(roots.drop_last());
        lemma_le_bytes_len(roots.last().0 as nat, 4);
    }
}

proof fn lemma_entries_len(nodes: Seq<NodeModel>, k: nat)
    ensures
        entries_bytes(nodes, k).len() == 8 * k,
    decreases k,
{
    if k > 0 {
        lemma_entries_len(nodes, (k - 1) as nat);
        lemma_le_bytes_len(wire_entry(nodes, k - 1).packed(), 8);
    }
}

proof fn lemma_digests_len(nodes: Seq<NodeModel>, k: nat)
    ensures
        digests_bytes(nodes, true, k).len() == 32 * externals_before(nodes, k),
        digests_bytes(nodes, false, k).len() == 32 * (k - externals_before(nodes, k)),
        externals_before(nodes, k) <= k,
    decreases k,
{
    if k > 0 {
        lemma_digests_len(nodes, (k - 1) as nat);
        lemma_word_bytes_len(nodes[k - 1].digest);
    }
}

/// Where the sections of a written forest lie.
pub open spec fn written_layout(forest: ForestModel, hashless: bool) -> ForestLayout {
    let nodes = forest.nodes;
    let n = nodes.len();
    let external = externals_before(nodes, n);
    let internal = (n - external) as nat;
    let roots = forest.roots.len();
    let data = block_data(nodes, n).len();
    let roots_offset = 8 + encoded_len(internal) + encoded_len(external) + encoded_len(roots);
    let data_offset = roots_offset + 4 * roots + encoded_len(data);
    let entry_offset = data_offset + data;
    let external_offset = entry_offset + 8 * n;
    let hash_offset = external_offset + 32 * external;
    ForestLayout {
        hashless,
        node_count: n as usize,
        internal_count: internal as usize,
        external_count: external as usize,
        roots_count: roots as usize,
        roots_offset: roots_offset as usize,
        data_len: data as usize,
        data_offset: data_offset as usize,
        entry_offset: entry_offset as usize,
        external_offset: external_offset as usize,
        hash_offset: hash_offset as usize,
        advice_offset: (hash_offset + if hashless {
            0
        } else {
            32 * internal
        }) as usize,
    }
}

/// Where the pieces of a written forest stand. Bytes may follow.
pub open spec fn pieces_at(bytes: Seq<u8>, forest: ForestModel, hashless: bool) -> bool {
    let nodes = forest.nodes;
    let n = nodes.len();
    let external = externals_before(nodes, n);
    let internal = (n - external) as nat;
    let layout = written_layout(forest, hashless);
    let data = block_data(nodes, n);
    &&& holds_at(bytes, 0, header_bytes(hashless))
    &&& holds_at(bytes, 8, count_bytes(internal))
    &&& holds_at(bytes, 8 + encoded_len(internal) as int, count_bytes(external))
    &&& holds_at(
        bytes,
        8 + encoded_len(internal) + encoded_len(external) as int,
        count_bytes(forest.roots.len()),
    )
    &&& holds_at(bytes, layout.roots_offset as int, roots_bytes(forest.roots))
    &&& holds_at(
        bytes,
        layout.roots_offset + 4 * forest.roots.len(),
        count_bytes(data.len()),
    )
    &&& holds_at(bytes, layout.data_offset as int, data)
    &&& holds_at(bytes, layout.entry_offset as int, entries_bytes(nodes, n))
    &&& holds_at(bytes, layout.external_offset as int, digests_bytes(nodes, true, n))
    &&& holds_at(bytes, layout.hash_offset as int, hashes_bytes(nodes, hashless))
    &&& holds_at(bytes, layout.advice_offset as int, advice_bytes(forest.advice_map))
    &&& layout.advice_offset + advice_bytes(forest.advice_map).len() <= bytes.len()
    &&& layout.data_offset + data.len() == layout.entry_offset
    &&& layout.entry_offset + 8 * n == layout.external_offset
    &&& layout.external_offset + 32 * external == layout.hash_offset
    &&& layout.hash_offset + (if hashless {
        0
    } else {
        32 * internal
    }) == layout.advice_offset
    &&& layout.roots_offset == 8 + encoded_len(internal) + encoded_len(external) + encoded_len(
        forest.roots.len(),
    )
    &&& layout.data_offset == layout.roots_offset + 4 * forest.roots.len() + encoded_len(data.len())
    &&& layout.node_count == n
    &&& layout.internal_count == internal
    &&& layout.external_count == external
    &&& layout.roots_count == forest.roots.len()
    &&& layout.data_len == data.len()
    &&& external <= n
}

proof fn lemma_pieces_at(forest: ForestModel, hashless: bool)
    requires
        serializable(forest),
        forest_bytes(forest, hashless).len() <= usize::MAX,
    ensures
        pieces_at(forest_bytes(forest, hashless), forest, hashless),
        written_layout(forest, hashless).advice_offset + advice_bytes(forest.advice_map).len()
            == forest_bytes(forest, hashless).len(),
{
    let bytes = forest_bytes(forest, hashless);
    let nodes = forest.nodes;
    let n = nodes.len();
    let external = externals_before(nodes, n);
    let internal = (n - external) as nat;
    let data = block_data(nodes, n);
    lemma_digests_len(nodes, n);
    lemma_entries_len(nodes, n);
    lemma_roots_len(forest.roots);
    lemma_count_bytes_len(internal);
    lemma_count_bytes_len(external);
    lemma_count_bytes_len(forest.roots.len());
    lemma_count_bytes_len(data.len());
    let p1 = header_bytes(hashless);
    let p2 = count_bytes(internal);
    let p3 = count_bytes(external);
    let p4 = count_bytes(forest.roots.len());
    let p5 = roots_bytes(forest.roots);
    let p6 = count_bytes(data.len());
    let p7 = data;
    let p8 = entries_bytes(nodes, n);
    let p9 = digests_bytes(nodes, true, n);
    let p10 = hashes_bytes(nodes, hashless);
    let p11 = advice_bytes(forest.advice_map);
    let r10 = p10 + p11;
    let r9 = p9 + r10;
    let r8 = p8 + r9;
    let r7 = p7 + r8;
    let r6 = p6 + r7;
    let r5 = p5 + r6;
    let r4 = p4 + r5;
    let r3 = p3 + r4;
    let r2 = p2 + r3;
    assert(bytes == p1 + r2);
    assert(bytes.subrange(0, bytes.len() as int) =~= bytes);
    let o2 = p1.len() as int;
    let o3 = o2 + p2.len();
    let o4 = o3 + p3.len();
    let o5 = o4 + p4.len();
    let o6 = o5 + p5.len();
    let o7 = o6 + p6.len();
    let o8 = o7 + p7.len();
    let o9 = o8 + p8.len();
    let o10 = o9 + p9.len();
    let o11 = o10 + p10.len();
    lemma_holds_at_split(bytes, 0, p1, r2);
    lemma_holds_at_split(bytes, o2, p2, r3);
    lemma_holds_at_split(bytes, o3, p3, r4);
    lemma_holds_at_split(bytes, o4, p4, r5);
    lemma_holds_at_split(bytes, o5, p5, r6);
    lemma_holds_at_split(bytes, o6, p6, r7);
    lemma_holds_at_split(bytes, o7, p7, r8);
    lemma_holds_at_split(bytes, o8, p8, r9);
    lemma_holds_at_split(bytes, o9, p9, r10);
    lemma_holds_at_split(bytes, o10, p10, p11);
    assert(bytes.len() == o11 + p11.len());
}

proof fn lemma_holds_before(bytes: Seq<u8>, tail: Seq<u8>, at: int, piece: Seq<u8>)
    requires
        holds_at(bytes, at, piece),
    ensures
        holds_at(bytes + tail, at, piece),
{
    assert((bytes + tail).subrange(at, at + piece.len()) =~= bytes.subrange(at, at + piece.len()));
}

/// The pieces of a written forest stand where they stood when bytes follow.
proof fn lemma_pieces_before(
    bytes: Seq<u8>,
    tail: Seq<u8>,
    forest: ForestModel,
    hashless: bool,
)
    requires
        pieces_at(bytes, forest, hashless),
    ensures
        pieces_at(bytes + tail, forest, hashless),
{
    let nodes = forest.nodes;
    let n = nodes.len();
    let external = externals_before(nodes, n);
    let internal = (n - external) as nat;
    let layout = written_layout(forest, hashless);
    let data = block_data(nodes, n);
    lemma_holds_before(bytes, tail, 0, header_bytes(hashless));
    lemma_holds_before(bytes, tail, 8, count_bytes(internal));
    lemma_holds_before(bytes, tail, 8 + encoded_len(internal) as int, count_bytes(external));
    lemma_holds_before(
        bytes,
        tail,
        8 + encoded_len(internal) + encoded_len(external) as int,
        count_bytes(forest.roots.len()),
    );
    lemma_holds_before(bytes, tail, layout.roots_offset as int, roots_bytes(forest.roots));
    lemma_holds_before(
        bytes,
        tail,
        layout.roots_offset + 4 * forest.roots.len(),
        count_bytes(data.len()),
    );
    lemma_holds_before(bytes, tail, layout.data_offset as int, data);
    lemma_holds_before(bytes, tail, layout.entry_offset as int, entries_bytes(nodes, n));
    lemma_holds_before(
        bytes,
        tail,
        layout.external_offset as int,
        digests_bytes(nodes, true, n),
    );
    lemma_holds_before(bytes, tail, layout.hash_offset as int, hashes_bytes(nodes, hashless));
    lemma_holds_before(
        bytes,
        tail,
        layout.advice_offset as int,
        advice_bytes(forest.advice_map),
    );
}

/// The layout of a written forest is found again.
#[verifier::spinoff_prover]
pub proof fn lemma_layout_round_trip(
    bytes: Seq<u8>,
    forest: ForestModel,
    hashless: bool,
    limit: Option<usize>,
    allow_hashless: bool,
)
    requires
        serializable(forest),
        bytes.len() <= usize::MAX,
        pieces_at(bytes, forest, hashless),
        roomy(limit, bytes.len()),
        hashless ==> allow_hashless,
    ensures
        layout_at(bytes, limit, allow_hashless) == Ok::<ForestLayout, DeserializationError>(
            written_layout(forest, hashless),
        ),
{
    let nodes = forest.nodes;
    let n = nodes.len();
    let external = externals_before(nodes, n);
    let internal = (n - external) as nat;
    let layout = written_layout(forest, hashless);
    let roots = forest.roots.len();
    lemma_header_round_trip(bytes, hashless, allow_hashless);
    lemma_count_bytes_len(internal);
    lemma_count_bytes_len(external);
    lemma_count_bytes_len(roots);
    law_count_round_trip(bytes, 8, internal);
    law_count_round_trip(bytes, 8 + encoded_len(internal), external);
    let at = 8 + encoded_len(internal) + encoded_len(external);
    lemma_available(limit, bytes.len(), at, n, 8);
    assert(node_counts_at(bytes, limit) == Ok::<(nat, nat, nat), DeserializationError>(
        (internal, external, at),
    ));
    lemma_bounded_count(bytes, limit, at, roots, 4);
    let end = (layout.roots_offset + 4 * roots) as nat;
    assert(section_end(bytes, layout.roots_offset as nat, roots, 4) == Ok::<
        nat,
        DeserializationError,
    >(end));
    lemma_sections_round_trip(bytes, forest, hashless, limit);
}

proof fn lemma_sections_round_trip(
    bytes: Seq<u8>,
    forest: ForestModel,
    hashless: bool,
    limit: Option<usize>,
)
    requires
        serializable(forest),
        bytes.len() <= usize::MAX,
        pieces_at(bytes, forest, hashless),
        roomy(limit, bytes.len()),
    ensures
        ({
            let layout = written_layout(forest, hashless);
            sections_at(
                bytes,
                limit,
                hashless,
                layout.internal_count as nat,
                layout.external_count as nat,
                layout.roots_count as nat,
                layout.roots_offset as nat,
                (layout.roots_offset + 4 * layout.roots_count) as nat,
            ) == Ok::<ForestLayout, DeserializationError>(layout)
        }),
{
    let layout = written_layout(forest, hashless);
    let n = forest.nodes.len();
    let data = block_data(forest.nodes, n);
    let external = externals_before(forest.nodes, n);
    let end = (layout.roots_offset + 4 * forest.roots.len()) as nat;
    lemma_count_bytes_len(data.len());
    lemma_bounded_count(bytes, limit, end, data.len(), 1);
    assert(section_end(bytes, layout.data_offset as nat, data.len(), 1) == Ok::<
        nat,
        DeserializationError,
    >(layout.entry_offset as nat));
    assert(section_end(bytes, layout.entry_offset as nat, n, 8) == Ok::<nat, DeserializationError>(
        layout.external_offset as nat,
    ));
    assert(section_end(bytes, layout.external_offset as nat, external, 32) == Ok::<
        nat,
        DeserializationError,
    >(layout.hash_offset as nat));
}

proof fn lemma_header_round_trip(bytes: Seq<u8>, hashless: bool, allow_hashless: bool)
    requires
        bytes.len() <= usize::MAX,
        holds_at(bytes, 0, header_bytes(hashless)),
    ensures
        header_at(bytes, allow_hashless) == (if hashless && !allow_hashless {
            refused::<bool>(InvalidValue::HashlessNotAllowed)
        } else {
            Ok::<bool, DeserializationError>(hashless)
        }),
{
    let h = header_bytes(hashless);
    assert(forall|i: int| 0 <= i < 8 ==> bytes[i] == #[trigger] bytes.subrange(0, 8)[i]);
    assert(bytes.subrange(0, 8) == h);
    assert(bytes[0] == h[0] && bytes[1] == h[1] && bytes[2] == h[2] && bytes[3] == h[3] && bytes[4]
        == h[4] && bytes[5] == h[5] && bytes[6] == h[6] && bytes[7] == h[7]) by {
        assert(bytes.subrange(0, 8)[0] == h[0]);
        assert(bytes.subrange(0, 8)[1] == h[1]);
        assert(bytes.subrange(0, 8)[2] == h[2]);
        assert(bytes.subrange(0, 8)[3] == h[3]);
        assert(bytes.subrange(0, 8)[4] == h[4]);
        assert(bytes.subrange(0, 8)[5] == h[5]);
        assert(bytes.subrange(0, 8)[6] == h[6]);
        assert(bytes.subrange(0, 8)[7] == h[7]);
    }
    assert(bytes.subrange(0, 4) =~= seq![0x4du8, 0x41u8, 0x53u8, 0x54u8]);
}

// NODES
// ================================================================================================

proof fn lemma_entry_piece(bytes: Seq<u8>, at: int, nodes: Seq<NodeModel>, i: nat, k: nat)
    requires
        i < k,
        holds_at(bytes, at, entries_bytes(nodes, k)),
    ensures
        holds_at(bytes, at + 8 * i, le_bytes(wire_entry(nodes, i as int).packed(), 8)),
    decreases k,
{
    let front = entries_bytes(nodes, (k - 1) as nat);
    lemma_holds_at_split(bytes, at, front, le_bytes(wire_entry(nodes, k - 1).packed(), 8));
    lemma_entries_len(nodes, (k - 1) as nat);
    if i + 1 < k {
        lemma_entry_piece(bytes, at, nodes, i, (k - 1) as nat);
    }
}

proof fn lemma_root_piece(bytes: Seq<u8>, at: int, roots: Seq<MastNodeId>, i: nat)
    requires
        i < roots.len(),
        holds_at(bytes, at, roots_bytes(roots)),
    ensures
        holds_at(bytes, at + 4 * i, le_bytes(roots[i as int].0 as nat, 4)),
    decreases roots.len(),
{
    let front = roots.drop_last();
    lemma_holds_at_split(bytes, at, roots_bytes(front), le_bytes(roots.last().0 as nat, 4));
    lemma_roots_len(front);
    if i + 1 < roots.len() {
        lemma_root_piece(bytes, at, front, i);
    }
}

/// How many of the nodes before `i` are in the class of external nodes, or in the other.
spec fn class_slot(nodes: Seq<NodeModel>, external: bool, i: nat) -> int {
    if external {
        externals_before(nodes, i) as int
    } else {
        i - externals_before(nodes, i)
    }
}

proof fn lemma_digest_piece(
    bytes: Seq<u8>,
    at: int,
    nodes: Seq<NodeModel>,
    external: bool,
    i: nat,
    k: nat,
)
    requires
        i < k,
        (nodes[i as int].kind is External) == external,
        holds_at(bytes, at, digests_bytes(nodes, external, k)),
    ensures
        holds_at(
            bytes,
            at + 32 * class_slot(nodes, external, i),
            word_bytes(nodes[i as int].digest),
        ),
    decreases k,
{
    let front = digests_bytes(nodes, external, (k - 1) as nat);
    if (nodes[k - 1].kind is External) == external {
        lemma_holds_at_split(bytes, at, front, word_bytes(nodes[k - 1].digest));
    }
    lemma_digests_len(nodes, (k - 1) as nat);
    if i + 1 < k {
        lemma_digest_piece(bytes, at, nodes, external, i, (k - 1) as nat);
    }
}

proof fn lemma_block_piece(nodes: Seq<NodeModel>, i: nat, k: nat)
    requires
        i < k,
        nodes[i as int].kind is Block,
    ensures
        holds_at(
            block_data(nodes, k),
            block_data(nodes, i).len() as int,
            block_bytes(nodes[i as int].kind->Block_0),
        ),
        block_bytes(nodes[i as int].kind->Block_0).len() > 0,
    decreases k,
{
    let batches = nodes[i as int].kind->Block_0;
    lemma_count_bytes_len(crate::block::all_ops(batches).len());
    let piece = block_bytes(batches);
    let at = block_data(nodes, i).len() as int;
    let data = block_data(nodes, k);
    if i + 1 == k {
        assert(data.subrange(at, at + piece.len()) =~= piece);
    } else {
        lemma_block_piece(nodes, i, (k - 1) as nat);
        let front = block_data(nodes, (k - 1) as nat);
        assert(data.subrange(at, at + piece.len()) =~= front.subrange(at, at + piece.len()));
    }
}

/// The entries of the nodes of a forest.
pub open spec fn wire_entries(nodes: Seq<NodeModel>) -> Seq<MastNodeEntry> {
    Seq::new(nodes.len(), |i: int| wire_entry(nodes, i))
}

proof fn lemma_entry_round_trip(bytes: Seq<u8>, forest: ForestModel, hashless: bool, i: nat)
    requires
        serializable(forest),
        bytes.len() <= usize::MAX,
        pieces_at(bytes, forest, hashless),
        i < forest.nodes.len(),
    ensures
        entry_at(bytes, written_layout(forest, hashless), i) == Ok::<
            MastNodeEntry,
            DeserializationError,
        >(wire_entry(forest.nodes, i as int)),
{
    let layout = written_layout(forest, hashless);
    let entry = wire_entry(forest.nodes, i as int);
    lemma_entry_piece(
        bytes,
        layout.entry_offset as int,
        forest.nodes,
        i,
        forest.nodes.len(),
    );
    lemma_entry_wf(forest, i as int);
    law_entry_round_trip(entry);
    lemma_pow256_values();
    law_le_round_trip(entry.packed(), 8);
    lemma_le_bytes_len(entry.packed(), 8);
}

proof fn lemma_entries_round_trip(bytes: Seq<u8>, forest: ForestModel, hashless: bool, k: nat)
    requires
        serializable(forest),
        bytes.len() <= usize::MAX,
        pieces_at(bytes, forest, hashless),
        k <= forest.nodes.len(),
    ensures
        entries_upto(bytes, written_layout(forest, hashless), k) == Ok::<
            Seq<MastNodeEntry>,
            DeserializationError,
        >(wire_entries(forest.nodes).take(k as int)),
    decreases k,
{
    let all = wire_entries(forest.nodes);
    if k == 0 {
        assert(all.take(0) =~= Seq::<MastNodeEntry>::empty());
    } else {
        lemma_entries_round_trip(bytes, forest, hashless, (k - 1) as nat);
        lemma_entry_round_trip(bytes, forest, hashless, (k - 1) as nat);
        assert(all.take(k - 1).push(all[k - 1]) =~= all.take(k as int));
    }
}

proof fn lemma_root_round_trip(bytes: Seq<u8>, forest: ForestModel, hashless: bool, i: nat)
    requires
        serializable(forest),
        bytes.len() <= usize::MAX,
        pieces_at(bytes, forest, hashless),
        i < forest.roots.len(),
    ensures
        root_at(bytes, written_layout(forest, hashless), i) == Ok::<
            MastNodeId,
            DeserializationError,
        >(forest.roots[i as int]),
{
    let layout = written_layout(forest, hashless);
    let root = forest.roots[i as int];
    lemma_root_piece(bytes, layout.roots_offset as int, forest.roots, i);
    lemma_pow256_values();
    law_le_round_trip(root.0 as nat, 4);
    lemma_le_bytes_len(root.0 as nat, 4);
    assert(root.0 < forest.nodes.len());
}

proof fn lemma_roots_round_trip(bytes: Seq<u8>, forest: ForestModel, hashless: bool, k: nat)
    requires
        serializable(forest),
        bytes.len() <= usize::MAX,
        pieces_at(bytes, forest, hashless),
        k <= forest.roots.len(),
    ensures
        roots_upto(bytes, written_layout(forest, hashless), k) == Ok::<
            Seq<MastNodeId>,
            DeserializationError,
        >(forest.roots.take(k as int)),
    decreases k,
{
    if k == 0 {
        assert(forest.roots.take(0) =~= Seq::<MastNodeId>::empty());
    } else {
        lemma_roots_round_trip(bytes, forest, hashless, (k - 1) as nat);
        lemma_root_round_trip(bytes, forest, hashless, (k - 1) as nat);
        assert(forest.roots.take(k - 1).push(forest.roots[k - 1]) =~= forest.roots.take(k as int));
    }
}

proof fn lemma_same_count(nodes: Seq<NodeModel>, k: nat)
    requires
        k <= nodes.len(),
    ensures
        external_entries(wire_entries(nodes), k) == externals_before(nodes, k),
    decreases k,
{
    if k > 0 {
        lemma_same_count(nodes, (k - 1) as nat);
    }
}

/// In dense order the external nodes come first.
proof fn lemma_externals_first(nodes: Seq<NodeModel>, i: nat)
    requires
        dense(nodes),
        i < nodes.len(),
    ensures
        nodes[i as int].kind is External ==> externals_before(nodes, i) == i,
    decreases i,
{
    if nodes[i as int].kind is External && i > 0 {
        crate::forest::lemma_no_fault(
            bare_entries(nodes),
            digests_of(nodes),
            i,
            nodes.len(),
        );
        lemma_externals_first(nodes, (i - 1) as nat);
    }
}

/// The nodes below the number of external nodes are external.
proof fn lemma_external_prefix(nodes: Seq<NodeModel>, i: nat, k: nat)
    requires
        dense(nodes),
        k <= nodes.len(),
        i < externals_before(nodes, k),
    ensures
        i < k,
        nodes[i as int].kind is External,
    decreases k,
{
    if i < externals_before(nodes, (k - 1) as nat) {
        lemma_external_prefix(nodes, i, (k - 1) as nat);
    } else {
        lemma_externals_first(nodes, (k - 1) as nat);
    }
}

proof fn lemma_externals_round_trip(bytes: Seq<u8>, forest: ForestModel, hashless: bool, k: nat)
    requires
        serializable(forest),
        bytes.len() <= usize::MAX,
        pieces_at(bytes, forest, hashless),
        k <= externals_before(forest.nodes, forest.nodes.len()),
    ensures
        externals_upto(bytes, written_layout(forest, hashless), k) == Ok::<
            Seq<Word>,
            DeserializationError,
        >(digests_of(forest.nodes).take(k as int)),
    decreases k,
{
    let nodes = forest.nodes;
    lemma_externals_bound(nodes, nodes.len());
    let all = digests_of(nodes);
    if k == 0 {
        assert(all.take(0) =~= Seq::<Word>::empty());
    } else {
        let i = (k - 1) as nat;
        lemma_externals_round_trip(bytes, forest, hashless, i);
        lemma_external_prefix(nodes, i, nodes.len());
        lemma_externals_first(nodes, i);
        let layout = written_layout(forest, hashless);
        lemma_digest_piece(bytes, layout.external_offset as int, nodes, true, i, nodes.len());
        assert(nodes[i as int].wf());
        lemma_word_round_trip(bytes, (layout.external_offset + 32 * i) as nat, nodes[i as int].digest);
        assert(all.take(k - 1).push(all[k - 1]) =~= all.take(k as int));
    }
}

/// The entries, external digests and order of a written forest are found again.
pub proof fn lemma_ordered_round_trip(bytes: Seq<u8>, forest: ForestModel, hashless: bool)
    requires
        serializable(forest),
        bytes.len() <= usize::MAX,
        pieces_at(bytes, forest, hashless),
    ensures
        ordered(bytes, written_layout(forest, hashless)) == Ok::<
            (Seq<MastNodeEntry>, Seq<Word>),
            DeserializationError,
        >(
            (
                wire_entries(forest.nodes),
                digests_of(forest.nodes).take(
                    externals_before(forest.nodes, forest.nodes.len()) as int,
                ),
            ),
        ),
{
    let nodes = forest.nodes;
    let n = nodes.len();
    let external = externals_before(nodes, n);
    let entries = wire_entries(nodes);
    let externals = digests_of(nodes).take(external as int);
    let digests = placed_digests(entries, externals);
    lemma_entries_round_trip(bytes, forest, hashless, n);
    assert(entries.take(n as int) =~= entries);
    lemma_same_count(nodes, n);
    lemma_externals_bound(nodes, n);
    lemma_externals_round_trip(bytes, forest, hashless, external);
    assert forall|i: int| 0 <= i < n implies {
        &&& (#[trigger] nodes[i]).kind is Block <==> entries[i] is Block
        &&& !(nodes[i].kind is Block) ==> entries[i] == entry_of(nodes[i].kind, 0)
        &&& nodes[i].kind is External ==> nodes[i].digest == digests[i]
    } by {
        if nodes[i].kind is External {
            lemma_externals_first(nodes, i as nat);
            lemma_same_count(nodes, i as nat);
            lemma_same_count(nodes, (i + 1) as nat);
            lemma_external_entries(entries, (i + 1) as nat, n);
        }
    }
    lemma_described_order(entries, digests, nodes, n);
}

/// Digests of internal nodes are the ones that their structure has.
pub open spec fn honest(nodes: Seq<NodeModel>) -> bool {
    forall|i: int|
        0 <= i < nodes.len() ==> (#[trigger] nodes[i]).digest == digest_in(
            nodes,
            nodes[i].kind,
            nodes[i].digest,
        )
}

proof fn lemma_digest_prefix(nodes: Seq<NodeModel>, i: int)
    requires
        0 <= i < nodes.len(),
        children_below(nodes[i].kind, i),
        !(nodes[i].kind is External),
    ensures
        digest_in(nodes.take(i), nodes[i].kind, Word::zero_spec()) == digest_in(
            nodes,
            nodes[i].kind,
            nodes[i].digest,
        ),
{
    let c = nodes[i].kind.children();
    assert(c.len() > 0 ==> c[0].0 < i);
    assert(c.len() > 1 ==> c[1].0 < i);
}

proof fn lemma_kind_round_trip(bytes: Seq<u8>, forest: ForestModel, hashless: bool, i: int)
    requires
        serializable(forest),
        bytes.len() <= usize::MAX,
        pieces_at(bytes, forest, hashless),
        0 <= i < forest.nodes.len(),
    ensures
        kind_at(bytes, written_layout(forest, hashless), wire_entry(forest.nodes, i)) == Ok::<
            KindModel,
            DeserializationError,
        >(forest.nodes[i].kind),
{
    let nodes = forest.nodes;
    let n = nodes.len();
    let layout = written_layout(forest, hashless);
    match nodes[i].kind {
        KindModel::Block(batches) => {
            let data = block_data(nodes, n);
            lemma_block_piece(nodes, i as nat, n);
            lemma_block_data_monotone(nodes, i as nat, n);
            assert(nodes[i].wf());
            law_block_round_trip(data, block_data(nodes, i as nat).len(), batches);
            assert(bytes.subrange(
                layout.data_offset as int,
                layout.data_offset + layout.data_len,
            ) == data);
        },
        _ => {},
    }
}

proof fn lemma_nodes_round_trip(bytes: Seq<u8>, forest: ForestModel, hashless: bool, k: nat)
    requires
        serializable(forest),
        hashless ==> honest(forest.nodes),
        bytes.len() <= usize::MAX,
        pieces_at(bytes, forest, hashless),
        k <= forest.nodes.len(),
    ensures
        nodes_upto(
            bytes,
            written_layout(forest, hashless),
            wire_entries(forest.nodes),
            digests_of(forest.nodes).take(
                externals_before(forest.nodes, forest.nodes.len()) as int,
            ),
            k,
        ) == Ok::<Seq<NodeModel>, DeserializationError>(forest.nodes.take(k as int)),
    decreases k,
{
    let nodes = forest.nodes;
    let n = nodes.len();
    let layout = written_layout(forest, hashless);
    let entries = wire_entries(nodes);
    let externals = digests_of(nodes).take(externals_before(nodes, n) as int);
    if k == 0 {
        assert(nodes.take(0) =~= Seq::<NodeModel>::empty());
    } else {
        let i = k - 1;
        lemma_nodes_round_trip(bytes, forest, hashless, i as nat);
        lemma_kind_round_trip(bytes, forest, hashless, i);
        assert(nodes[i].wf());
        assert(children_below(nodes[i].kind, i));
        lemma_same_count(nodes, i as nat);
        lemma_externals_bound(nodes, i as nat);
        if nodes[i].kind is External {
            lemma_externals_first(nodes, i as nat);
            lemma_same_count(nodes, n);
            lemma_same_count(nodes, k);
            lemma_external_entries(entries, k, n);
        } else if hashless {
            lemma_digest_prefix(nodes, i);
            assert(nodes[i].digest == digest_in(nodes, nodes[i].kind, nodes[i].digest));
        } else {
            lemma_digest_piece(bytes, layout.hash_offset as int, nodes, false, i as nat, n);
            lemma_word_round_trip(
                bytes,
                (layout.hash_offset + 32 * class_slot(nodes, false, i as nat)) as nat,
                nodes[i].digest,
            );
        }
        assert(digest_at(bytes, layout, entries, externals, nodes.take(i), nodes[i].kind, i)
            == Ok::<Word, DeserializationError>(nodes[i].digest));
        assert(nodes.take(i).push(nodes[i]) =~= nodes.take(k as int));
    }
}

proof fn lemma_materialized_round_trip(bytes: Seq<u8>, forest: ForestModel, hashless: bool)
    requires
        serializable(forest),
        hashless ==> honest(forest.nodes),
        bytes.len() <= usize::MAX,
        pieces_at(bytes, forest, hashless),
    ensures
        materialized(bytes, written_layout(forest, hashless), forest.advice_map) == Ok::<
            ForestModel,
            DeserializationError,
        >(forest),
{
    lemma_ordered_round_trip(bytes, forest, hashless);
    lemma_roots_round_trip(bytes, forest, hashless, forest.roots.len());
    lemma_nodes_round_trip(bytes, forest, hashless, forest.nodes.len());
    assert(forest.roots.take(forest.roots.len() as int) =~= forest.roots);
    assert(forest.nodes.take(forest.nodes.len() as int) =~= forest.nodes);
}

proof fn lemma_decoded_round_trip(
    forest: ForestModel,
    hashless: bool,
    limit: Option<usize>,
    allow_hashless: bool,
)
    requires
        serializable(forest),
        forest_bytes(forest, hashless).len() <= usize::MAX,
        roomy(limit, forest_bytes(forest, hashless).len()),
        hashless ==> allow_hashless,
    ensures
        decoded(forest_bytes(forest, hashless), limit, allow_hashless) == Ok::<
            (ForestLayout, AdviceModel, nat),
            DeserializationError,
        >(
            (
                written_layout(forest, hashless),
                forest.advice_map,
                forest_bytes(forest, hashless).len(),
            ),
        ),
        pieces_at(forest_bytes(forest, hashless), forest, hashless),
{
    let bytes = forest_bytes(forest, hashless);
    lemma_pieces_at(forest, hashless);
    lemma_layout_round_trip(bytes, forest, hashless, limit, allow_hashless);
    law_advice_round_trip(
        bytes,
        limit,
        written_layout(forest, hashless).advice_offset as nat,
        forest.advice_map,
    );
}

// LAWS
// ================================================================================================

/// A trusted read of what was written with all digests gives the forest back.
pub proof fn law_trusted_round_trip(forest: ForestModel)
    requires
        serializable(forest),
        forest_bytes(forest, false).len() <= usize::MAX,
    ensures
        trusted(forest_bytes(forest, false)) == Ok::<ForestModel, DeserializationError>(forest),
{
    let bytes = forest_bytes(forest, false);
    let limit = trusted_limit(bytes.len());
    lemma_decoded_round_trip(forest, false, limit, false);
    lemma_materialized_round_trip(bytes, forest, false);
}

/// A trusted read refuses what was written without digests, in full and by random access.
pub proof fn law_trusted_refuses_hashless(forest: ForestModel)
    requires
        serializable(forest),
        forest_bytes(forest, true).len() <= usize::MAX,
    ensures
        trusted(forest_bytes(forest, true)) == refused::<ForestModel>(
            InvalidValue::HashlessNotAllowed,
        ),
        viewed(forest_bytes(forest, true)) == refused::<(ForestLayout, AdviceModel)>(
            InvalidValue::HashlessNotAllowed,
        ),
{
    lemma_pieces_at(forest, true);
    lemma_header_round_trip(forest_bytes(forest, true), true, false);
}

/// A trusted read refuses bytes behind what was written, in full and by random access.
pub proof fn law_trusted_refuses_trailing_bytes(forest: ForestModel, tail: Seq<u8>)
    requires
        serializable(forest),
        tail.len() > 0,
        (forest_bytes(forest, false) + tail).len() <= usize::MAX,
    ensures
        trusted(forest_bytes(forest, false) + tail) == refused::<ForestModel>(
            InvalidValue::TrailingBytes,
        ),
        viewed(forest_bytes(forest, false) + tail) == refused::<(ForestLayout, AdviceModel)>(
            InvalidValue::TrailingBytes,
        ),
{
    let written = forest_bytes(forest, false);
    let bytes = written + tail;
    let limit = trusted_limit(bytes.len());
    let at = written_layout(forest, false).advice_offset as nat;
    lemma_pieces_at(forest, false);
    lemma_pieces_before(written, tail, forest, false);
    lemma_layout_round_trip(bytes, forest, false, limit, false);
    law_advice_round_trip(bytes, limit, at, forest.advice_map);
    lemma_layout_round_trip(bytes, forest, false, None, false);
    law_advice_round_trip(bytes, None, at, forest.advice_map);
    lemma_materialized_round_trip(bytes, forest, false);
}

/// A view of what was written finds every entry, digest and root of the forest, and its advice
/// map.
pub proof fn law_view_round_trip(forest: ForestModel, i: nat, r: nat)
    requires
        serializable(forest),
        forest_bytes(forest, false).len() <= usize::MAX,
    ensures
        ({
            let bytes = forest_bytes(forest, false);
            let layout = written_layout(forest, false);
            &&& viewed(bytes) == Ok::<(ForestLayout, AdviceModel), DeserializationError>(
                (layout, forest.advice_map),
            )
            &&& layout.node_count == forest.nodes.len()
            &&& layout.roots_count == forest.roots.len()
            &&& r < forest.roots.len() ==> root_at(bytes, layout, r) == Ok::<
                MastNodeId,
                DeserializationError,
            >(forest.roots[r as int])
            &&& resolved(bytes, layout) matches Ok((entries, externals)) && {
                &&& entries == wire_entries(forest.nodes)
                &&& i < forest.nodes.len() ==> entry_at(bytes, layout, i) == Ok::<
                    MastNodeEntry,
                    DeserializationError,
                >(wire_entry(forest.nodes, i as int)) && digest_at(
                    bytes,
                    layout,
                    entries,
                    externals,
                    forest.nodes.take(i as int),
                    forest.nodes[i as int].kind,
                    i as int,
                ) == Ok::<Word, DeserializationError>(forest.nodes[i as int].digest)
            }
        }),
{
    let bytes = forest_bytes(forest, false);
    let layout = written_layout(forest, false);
    lemma_decoded_round_trip(forest, false, None, false);
    lemma_ordered_round_trip(bytes, forest, false);
    if r < forest.roots.len() {
        lemma_root_round_trip(bytes, forest, false, r);
    }
    if i < forest.nodes.len() {
        lemma_entry_round_trip(bytes, forest, false, i);
        lemma_nodes_round_trip(bytes, forest, false, i);
        lemma_nodes_round_trip(bytes, forest, false, i + 1);
        let nodes = forest.nodes;
        let entries = wire_entries(nodes);
        let externals = digests_of(nodes).take(externals_before(nodes, nodes.len()) as int);
        let j = i as int;
        lemma_kind_round_trip(bytes, forest, false, j);
        let up = nodes_upto(bytes, layout, entries, externals, i + 1)->Ok_0;
        assert(up == nodes.take(j + 1));
        assert(up.last() == nodes[j]);
        let digest = digest_at(bytes, layout, entries, externals, nodes.take(j), nodes[j].kind, j);
        assert(digest is Ok);
        assert(up.last() == NodeModel { kind: nodes[j].kind, digest: digest->Ok_0 });
    }
}

/// A forest that was read whole and a view of the same bytes answer alike, whatever they are asked.
pub proof fn law_read_modes_agree(forest: MastForest, view: MastForestWireView, index: usize)
    requires
        serializable(forest@),
        view.wf(),
        view.bytes@ == forest_bytes(forest@, false),
        forest_bytes(forest@, false).len() <= usize::MAX,
    ensures
        view.count() == forest.count(),
        view.root_count() == forest.root_count(),
        view.entry(index as nat) == forest.entry(index as nat),
        view.digest(index as nat) == forest.digest(index as nat),
        view.root(index as nat) == forest.root(index as nat),
        view.advice() == forest.advice(),
{
    law_view_round_trip(forest@, index as nat, index as nat);
}

/// Validation of what was written, with or without digests, gives the forest back, if its digests
/// and batches are as they have to be and the budget allows it.
pub proof fn law_untrusted_round_trip(
    forest: ForestModel,
    hashless: bool,
    wire_budget: usize,
    budget: Option<usize>,
)
    requires
        serializable(forest),
        forest_bytes(forest, hashless).len() <= wire_budget,
        forest_fault(forest.nodes, forest.nodes.len()) is None,
        budget is Some ==> validation_charge(written_layout(forest, hashless), budget->0) is Ok,
    ensures
        budgeted(forest_bytes(forest, hashless), wire_budget, true) == Ok::<
            (ForestLayout, AdviceModel, nat),
            DeserializationError,
        >(
            (
                written_layout(forest, hashless),
                forest.advice_map,
                forest_bytes(forest, hashless).len(),
            ),
        ),
        validated(
            forest_bytes(forest, hashless),
            written_layout(forest, hashless),
            forest.advice_map,
            budget,
        ) == Ok::<ForestModel, crate::forest::MastForestError>(forest),
{
    let bytes = forest_bytes(forest, hashless);
    reveal(budgeted);
    lemma_decoded_round_trip(forest, hashless, Some(wire_budget), true);
    assert(honest(forest.nodes)) by {
        assert forall|i: int| 0 <= i < forest.nodes.len() implies (#[trigger] forest.nodes[i]).digest
            == digest_in(forest.nodes, forest.nodes[i].kind, forest.nodes[i].digest) by {
            crate::untrusted::lemma_no_forest_fault(forest.nodes, i as nat, forest.nodes.len());
        }
    }
    lemma_materialized_round_trip(bytes, forest, hashless);
}

/// An untrusted read of what was written with bytes behind it ends before them, which is why it is
/// refused.
pub proof fn law_untrusted_ends_before_trailing_bytes(
    forest: ForestModel,
    hashless: bool,
    wire_budget: usize,
    tail: Seq<u8>,
)
    requires
        serializable(forest),
        tail.len() > 0,
        (forest_bytes(forest, hashless) + tail).len() <= wire_budget,
    ensures
        budgeted(forest_bytes(forest, hashless) + tail, wire_budget, true) == Ok::<
            (ForestLayout, AdviceModel, nat),
            DeserializationError,
        >(
            (
                written_layout(forest, hashless),
                forest.advice_map,
                forest_bytes(forest, hashless).len(),
            ),
        ),
        forest_bytes(forest, hashless).len() < (forest_bytes(forest, hashless) + tail).len(),
{
    let written = forest_bytes(forest, hashless);
    let bytes = written + tail;
    let limit = Some(wire_budget);
    reveal(budgeted);
    lemma_pieces_at(forest, hashless);
    lemma_pieces_before(written, tail, forest, hashless);
    lemma_layout_round_trip(bytes, forest, hashless, limit, true);
    law_advice_round_trip(
        bytes,
        limit,
        written_layout(forest, hashless).advice_offset as nat,
        forest.advice_map,
    );
}

/// A hashless payload leaves out thirty-two bytes for each internal node, and nothing else.
pub proof fn law_hashless_is_shorter(forest: ForestModel)
    ensures
        forest_bytes(forest, false).len() == forest_bytes(forest, true).len() + 32 * (
        forest.nodes.len() - externals_before(forest.nodes, forest.nodes.len())),
{
    lemma_digests_len(forest.nodes, forest.nodes.len());
}

} // verus!
