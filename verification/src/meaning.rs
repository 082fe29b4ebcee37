//! What code means: a node keeps its kind, its children and its digest from the moment it is asked
//! for until it is read back out of a finished forest.

use vstd::prelude::*;

use crate::batch::BatchModel;
use crate::body::{call_draft, dyn_draft, loop_draft, split_draft};
use crate::builder::{
    draft_key, interned_nodes, interned_ref, is_fresh, lemma_find_key, node_ok, recorded_over,
    replaces, AssemblyOp, BuilderModel, MastForestBuilder,
};
use crate::debug_info::DebugSourceInlineCall;
use crate::dense::{is_move, moved_node};
use crate::error::DeserializationError;
use crate::felt::Word;
use crate::finalizer::{finished, MastForestBuilderError};
use crate::finish::{comes_from, forest_of};
use crate::forest::{AdviceModel, ForestModel, MastForestError};
use crate::hasher::merge_in_domain_spec;
use crate::layout::ForestLayout;
use crate::merge::{block_draft, join_draft, RowsModel};
use crate::node::{
    block_digest, KindModel, NodeModel, CALL_DOMAIN, DYNCALL_DOMAIN, DYN_DOMAIN, JOIN_DOMAIN,
    LOOP_DOMAIN, SPLIT_DOMAIN, SYSCALL_DOMAIN,
};
use crate::pending::{pending_kind, DraftModel, MastNodeRef, MastNodeUse, PendingKind, PendingModel};
use crate::roundtrip::{honest, law_untrusted_round_trip, written_layout};
use crate::static_import::static_draft;
use crate::static_metadata::MetadataModel;
use crate::untrusted::{block_fault, budgeted, forest_fault, validated, validation_charge};
use crate::wire::{forest_bytes, serializable};

verus! {

// KINDS
// ================================================================================================

/// A finished node does what was asked for: it is of the same kind, a syscall no call and a dyncall
/// no dyn, a block has the same batches, and its children are the finished ones of the children
/// that were given, in the same order.
pub open spec fn does(node: PendingModel, ids: Seq<Option<u32>>, kind: KindModel) -> bool {
    &&& (node.kind is BasicBlock) == (kind is Block)
    &&& node.kind is BasicBlock ==> node.kind->BasicBlock_0 == kind->Block_0
    &&& (node.kind is Join) == (kind is Join)
    &&& (node.kind is Split) == (kind is Split)
    &&& (node.kind is Loop) == (kind is Loop)
    &&& (node.kind is Call && node.kind->Call_0) == (kind is SysCall)
    &&& (node.kind is Call && !node.kind->Call_0) == (kind is Call)
    &&& (node.kind is Dyn && node.kind->Dyn_0) == (kind is Dyncall)
    &&& (node.kind is Dyn && !node.kind->Dyn_0) == (kind is Dyn)
    &&& (node.kind is External) == (kind is External)
    &&& kind.children().len() == node.child_refs.len()
    &&& forall|i: int|
        0 <= i < node.child_refs.len() ==> (#[trigger] kind.children()[i]).0
            == ids[node.child_refs[i].0 as int]->0
}

proof fn lemma_finished_does(node: PendingModel, r: MastNodeRef, ids: Seq<Option<u32>>)
    requires
        finished(node, r, ids) is Ok,
        forall|i: int| 0 <= i < node.child_refs.len() ==> (#[trigger] node.child_refs[i]).0
            < ids.len(),
    ensures
        does(node, ids, finished(node, r, ids)->Ok_0.kind),
        finished(node, r, ids)->Ok_0.digest == node.digest,
{
}

/// Every node of a built forest is the one that was asked for: a node that was recorded as a
/// syscall is a syscall in the forest, one that was recorded as a call is a call, and so for every
/// other kind, over the children that were given for it and under the digest that was recorded.
/// Nothing else stands in the forest.
pub proof fn law_built_nodes_are_what_was_asked_for(
    b: BuilderModel,
    forest: ForestModel,
    ids: Seq<Option<u32>>,
)
    requires
        b.wf(),
        forest_of(b, forest, ids),
    ensures
        forall|r: int|
            0 <= r < b.nodes.len() && (#[trigger] ids[r]) is Some ==> does(
                b.nodes[r],
                ids,
                forest.nodes[ids[r]->0 as int].kind,
            ) && forest.nodes[ids[r]->0 as int].digest == b.nodes[r].digest,
        forall|i: int|
            0 <= i < forest.nodes.len() ==> exists|r: int|
                0 <= r < b.nodes.len() && ids[r] == Some(i as u32) && does(
                    b.nodes[r],
                    ids,
                    (#[trigger] forest.nodes[i]).kind,
                ),
{
    assert forall|r: int| 0 <= r < b.nodes.len() && (#[trigger] ids[r]) is Some implies does(
        b.nodes[r],
        ids,
        forest.nodes[ids[r]->0 as int].kind,
    ) && forest.nodes[ids[r]->0 as int].digest == b.nodes[r].digest by {
        assert(node_ok(b.nodes[r], b.nodes.len()));
        lemma_finished_does(b.nodes[r], MastNodeRef(r as u32), ids);
    }
    assert forall|i: int| 0 <= i < forest.nodes.len() implies exists|r: int|
        0 <= r < b.nodes.len() && ids[r] == Some(i as u32) && does(
            b.nodes[r],
            ids,
            (#[trigger] forest.nodes[i]).kind,
        ) by {
        assert(comes_from(ids, i));
        let r = choose|r: int|
            0 <= r < ids.len() && #[trigger] ids[r] == Some(i as u32) && i <= u32::MAX;
        assert(ids[r] is Some);
        assert(ids[r]->0 as int == i);
    }
}

/// The finished ids of the children of a node, where the children of a node of another forest went
/// to `refs` and these to `ids`.
pub open spec fn maps_children(
    node: NodeModel,
    refs: Seq<MastNodeRef>,
    ids: Seq<Option<u32>>,
    map: Seq<u32>,
) -> bool {
    &&& refs.len() == node.kind.children().len()
    &&& forall|i: int|
        0 <= i < refs.len() ==> {
            let child = (#[trigger] node.kind.children()[i]).0;
            &&& refs[i].0 < ids.len()
            &&& child < map.len()
            &&& ids[refs[i].0 as int] == Some(map[child as int])
        }
}

/// Linking keeps what code does: a node of a library that is taken over as pending and then
/// finished is the same node again, with only the ids of its children moved to where they went.
pub proof fn law_linked_nodes_are_kept(
    node: NodeModel,
    pending: PendingModel,
    node_ref: MastNodeRef,
    ids: Seq<Option<u32>>,
    map: Seq<u32>,
)
    requires
        pending.kind == pending_kind(node.kind),
        pending.digest == node.digest,
        maps_children(node, pending.child_refs, ids, map),
    ensures
        finished(pending, node_ref, ids) == Ok::<NodeModel, MastForestBuilderError>(
            moved_node(map, node),
        ),
        pending.kind.arity() == node.kind.children().len(),
{
    let c = node.kind.children();
    if c.len() > 0 {
        assert(ids[pending.child_refs[0].0 as int] == Some(map[c[0].0 as int]));
    }
    if c.len() > 1 {
        assert(ids[pending.child_refs[1].0 as int] == Some(map[c[1].0 as int]));
    }
}

// DIGESTS
// ================================================================================================

/// The digest that a pending node has to have: the hash of the groups of a block, and of the
/// digests of the children of any other node, in order, in the domain of its kind. That of a
/// placeholder is free.
pub open spec fn is_digest(kind: PendingKind, children: Seq<Word>, digest: Word) -> bool {
    let zero = Word::zero_spec();
    match kind {
        PendingKind::BasicBlock(batches) => digest == block_digest(batches),
        PendingKind::Join => digest == merge_in_domain_spec(children[0], children[1], JOIN_DOMAIN),
        PendingKind::Split => digest == merge_in_domain_spec(
            children[0],
            children[1],
            SPLIT_DOMAIN,
        ),
        PendingKind::Loop => digest == merge_in_domain_spec(children[0], zero, LOOP_DOMAIN),
        PendingKind::Call(is_syscall) => {
            &&& is_syscall ==> digest == merge_in_domain_spec(children[0], zero, SYSCALL_DOMAIN)
            &&& !is_syscall ==> digest == merge_in_domain_spec(children[0], zero, CALL_DOMAIN)
        },
        PendingKind::Dyn(is_dyncall) => {
            &&& is_dyncall ==> digest == merge_in_domain_spec(zero, zero, DYNCALL_DOMAIN)
            &&& !is_dyncall ==> digest == merge_in_domain_spec(zero, zero, DYN_DOMAIN)
        },
        PendingKind::External => true,
    }
}

/// The digests of pending nodes.
pub open spec fn digests_of_refs(nodes: Seq<PendingModel>, refs: Seq<MastNodeRef>) -> Seq<Word> {
    Seq::new(refs.len(), |i: int| nodes[refs[i].0 as int].digest)
}

/// Every pending node has the digest that it has to have.
pub open spec fn sound(nodes: Seq<PendingModel>) -> bool {
    forall|r: int|
        0 <= r < nodes.len() ==> is_digest(
            (#[trigger] nodes[r]).kind,
            digests_of_refs(nodes, nodes[r].child_refs),
            nodes[r].digest,
        )
}

/// A draft has the digest that it has to have over the nodes of a builder.
pub open spec fn draft_sound(nodes: Seq<PendingModel>, draft: DraftModel) -> bool {
    is_digest(draft.kind, digests_of_refs(nodes, draft.child_refs), draft.digest)
}

/// A draft is of the code that its key stands for: a placeholder that it replaces has its digest.
pub open spec fn same_code(nodes: Seq<PendingModel>, draft: DraftModel) -> bool {
    let r = interned_ref(nodes, draft_key(nodes, draft)) as int;
    r < nodes.len() && replaces(nodes[r], draft) ==> nodes[r].digest == draft.digest
}

/// Recording keeps digests as they have to be.
pub proof fn law_recording_keeps_digests(
    b: BuilderModel,
    after: BuilderModel,
    draft: DraftModel,
    source_children: Seq<u32>,
    op_start: u32,
    op_end: u32,
    node_use: MastNodeUse,
)
    requires
        b.wf(),
        sound(b.nodes),
        draft_sound(b.nodes, draft),
        same_code(b.nodes, draft),
        forall|i: int| 0 <= i < draft.child_refs.len() ==> (#[trigger] draft.child_refs[i]).0
            < b.nodes.len(),
        recorded_over(b, after, draft, source_children, op_start, op_end, node_use),
    ensures
        sound(after.nodes),
        forall|r: int| 0 <= r < b.nodes.len() ==> (#[trigger] after.nodes[r]).digest
            == b.nodes[r].digest,
{
    let key = draft_key(b.nodes, draft);
    lemma_find_key(b.nodes, key, b.nodes.len());
    let nodes = after.nodes;
    assert(nodes == interned_nodes(b.nodes, draft, key));
    assert forall|r: int| 0 <= r < b.nodes.len() implies (#[trigger] nodes[r]).digest
        == b.nodes[r].digest by {}
    assert(digests_of_refs(nodes, draft.child_refs) =~= digests_of_refs(
        b.nodes,
        draft.child_refs,
    ));
    assert forall|r: int| 0 <= r < nodes.len() implies is_digest(
        (#[trigger] nodes[r]).kind,
        digests_of_refs(nodes, nodes[r].child_refs),
        nodes[r].digest,
    ) by {
        if r < b.nodes.len() {
            assert(node_ok(b.nodes[r], b.nodes.len()));
            assert(digests_of_refs(nodes, b.nodes[r].child_refs) =~= digests_of_refs(
                b.nodes,
                b.nodes[r].child_refs,
            ));
        }
    }
}

/// Whatever is drafted has the digest that it has to have: a split over the code for a true
/// condition and then that for a false one, a loop over its body, a call or a syscall over its
/// callee, a join over what comes first and then what comes second.
pub proof fn law_drafts_have_their_digests(
    b: BuilderModel,
    first: MastNodeUse,
    second: MastNodeUse,
    flag: bool,
    asm_op: AssemblyOp,
    join_op: Option<AssemblyOp>,
    chain: Seq<DebugSourceInlineCall>,
    batches: Seq<BatchModel>,
    rows: RowsModel,
    functions: Seq<u32>,
)
    ensures
        ({
            let split = split_draft(b, first, second, asm_op, chain);
            let repeated = loop_draft(b, first, asm_op, chain);
            let call = call_draft(b, first, flag, asm_op, chain);
            let dynamic = dyn_draft(flag, asm_op, chain);
            let join = join_draft(b, first, second, join_op);
            let block = block_draft(batches, rows, functions);
            &&& split.kind is Split && draft_sound(b.nodes, split)
            &&& split.child_refs == seq![first.node_ref, second.node_ref]
            &&& repeated.kind is Loop && draft_sound(b.nodes, repeated)
            &&& repeated.child_refs == seq![first.node_ref]
            &&& call.kind == PendingKind::Call(flag) && draft_sound(b.nodes, call)
            &&& call.child_refs == seq![first.node_ref]
            &&& dynamic.kind == PendingKind::Dyn(flag) && draft_sound(b.nodes, dynamic)
            &&& join.kind is Join && draft_sound(b.nodes, join)
            &&& join.child_refs == seq![first.node_ref, second.node_ref]
            &&& block.kind == PendingKind::BasicBlock(batches) && draft_sound(b.nodes, block)
        }),
{
}

/// A control node that was drafted for an assembly operation has one row, for the operation, at its
/// only place, and stands under the inlined calls that were given.
pub proof fn law_control_drafts_have_one_row(
    b: BuilderModel,
    first: MastNodeUse,
    second: MastNodeUse,
    flag: bool,
    asm_op: AssemblyOp,
    chain: Seq<DebugSourceInlineCall>,
)
    ensures
        has_row(split_draft(b, first, second, asm_op, chain), asm_op, chain),
        has_row(loop_draft(b, first, asm_op, chain), asm_op, chain),
        has_row(call_draft(b, first, flag, asm_op, chain), asm_op, chain),
        has_row(dyn_draft(flag, asm_op, chain), asm_op, chain),
        has_row(join_draft(b, first, second, Some(asm_op)), asm_op, Seq::empty()),
        join_draft(b, first, second, None).asm_ops.len() == 0,
{
}

pub open spec fn has_row(
    draft: DraftModel,
    asm_op: AssemblyOp,
    chain: Seq<DebugSourceInlineCall>,
) -> bool {
    &&& draft.asm_ops.len() == 1
    &&& draft.asm_ops[0].op_idx == 0
    &&& draft.asm_ops[0].location_idx == asm_op.location_idx
    &&& draft.asm_ops[0].context_name_idx == asm_op.context_name_idx
    &&& draft.asm_ops[0].op_name_idx == asm_op.op_name_idx
    &&& draft.asm_ops[0].num_cycles == asm_op.num_cycles
    &&& draft.inline_calls == chain
    &&& draft.debug_vars.len() == 0
    &&& draft.call_frames.len() == 0
    &&& draft.functions.len() == 0
}

/// A node of a library whose digests are as they have to be is drafted with the digest that it has
/// to have, over copies of its children that have theirs.
pub proof fn law_linked_drafts_have_their_digests(
    b: BuilderModel,
    nodes: Seq<NodeModel>,
    x: int,
    child_uses: Seq<MastNodeUse>,
    metadata: MetadataModel,
)
    requires
        honest(nodes),
        0 <= x < nodes.len(),
        child_uses.len() == nodes[x].kind.children().len(),
        forall|i: int|
            0 <= i < child_uses.len() ==> b.nodes[(#[trigger] child_uses[i]).node_ref.0
                as int].digest == nodes[nodes[x].kind.children()[i].0 as int].digest,
    ensures
        draft_sound(b.nodes, static_draft(nodes[x], child_uses, metadata)),
{
    let c = nodes[x].kind.children();
    if c.len() > 0 {
        assert(b.nodes[child_uses[0].node_ref.0 as int].digest == nodes[c[0].0 as int].digest);
    }
    if c.len() > 1 {
        assert(b.nodes[child_uses[1].node_ref.0 as int].digest == nodes[c[1].0 as int].digest);
    }
    assert(nodes[x].digest == crate::node::digest_in(nodes, nodes[x].kind, nodes[x].digest));
}

/// The batches of every pending block are such as validation accepts.
pub open spec fn blocks_sound(nodes: Seq<PendingModel>) -> bool {
    forall|r: int|
        0 <= r < nodes.len() ==> ((#[trigger] nodes[r]).kind matches PendingKind::BasicBlock(batches)
            ==> block_fault(batches, batches.len()) is None)
}

/// Recording keeps batches such as validation accepts them, if those of the draft are.
pub proof fn law_recording_keeps_batches(
    b: BuilderModel,
    after: BuilderModel,
    draft: DraftModel,
    source_children: Seq<u32>,
    op_start: u32,
    op_end: u32,
    node_use: MastNodeUse,
)
    requires
        b.wf(),
        blocks_sound(b.nodes),
        draft.kind matches PendingKind::BasicBlock(batches) ==> block_fault(batches, batches.len())
            is None,
        recorded_over(b, after, draft, source_children, op_start, op_end, node_use),
    ensures
        blocks_sound(after.nodes),
{
    let key = draft_key(b.nodes, draft);
    lemma_find_key(b.nodes, key, b.nodes.len());
    let nodes = after.nodes;
    assert(nodes == interned_nodes(b.nodes, draft, key));
    assert forall|r: int| 0 <= r < nodes.len() implies ((
    #[trigger] nodes[r]).kind matches PendingKind::BasicBlock(batches) ==> block_fault(
        batches,
        batches.len(),
    ) is None) by {
        if r < b.nodes.len() {
            assert(b.nodes[r].kind matches PendingKind::BasicBlock(batches) ==> block_fault(
                batches,
                batches.len(),
            ) is None);
        }
    }
}

/// A builder that holds nothing holds no wrong digest and no wrong batch.
pub proof fn law_fresh_builders_are_sound(builder: MastForestBuilder)
    requires
        is_fresh(builder),
    ensures
        sound(builder@.nodes),
        blocks_sound(builder@.nodes),
{
}

/// The digest of every node of a built forest is the one that its kind gives over the digests of
/// its children, in their order, if the digest of every pending node was.
pub proof fn law_built_digests_are_recomputed(
    b: BuilderModel,
    forest: ForestModel,
    ids: Seq<Option<u32>>,
)
    requires
        b.wf(),
        sound(b.nodes),
        forest_of(b, forest, ids),
    ensures
        honest(forest.nodes),
{
    law_built_nodes_are_what_was_asked_for(b, forest, ids);
    assert forall|i: int| 0 <= i < forest.nodes.len() implies (#[trigger] forest.nodes[i]).digest
        == crate::node::digest_in(
        forest.nodes,
        forest.nodes[i].kind,
        forest.nodes[i].digest,
    ) by {
        assert(comes_from(ids, i));
        let r = choose|r: int|
            0 <= r < ids.len() && #[trigger] ids[r] == Some(i as u32) && i <= u32::MAX;
        assert(ids[r] is Some);
        assert(ids[r]->0 as int == i);
        let node = b.nodes[r];
        let kind = forest.nodes[i].kind;
        assert(does(node, ids, kind));
        assert(node_ok(node, b.nodes.len()));
        assert(finished(node, MastNodeRef(r as u32), ids) is Ok);
        let digests = digests_of_refs(b.nodes, node.child_refs);
        assert forall|j: int| 0 <= j < node.child_refs.len() implies forest.nodes[(
        #[trigger] kind.children()[j]).0 as int].digest == digests[j] by {
            let c = node.child_refs[j].0 as int;
            assert(0 <= c < ids.len());
            assert(j == 0 || j == 1);
            assert(ids[c] is Some);
        }
        assert(is_digest(node.kind, digests, node.digest));
        if node.child_refs.len() > 0 {
            assert(forest.nodes[kind.children()[0].0 as int].digest == digests[0]);
        }
        if node.child_refs.len() > 1 {
            assert(forest.nodes[kind.children()[1].0 as int].digest == digests[1]);
        }
    }
}

/// A forest that was built of nodes with the digests and batches that they have to have is
/// accepted by those who do not trust it: what is written of it, with or without digests, is read
/// back, validated and found to be the same forest, within any budget that its size leaves room
/// for.
pub proof fn law_built_forests_are_accepted(
    b: BuilderModel,
    forest: ForestModel,
    ids: Seq<Option<u32>>,
    hashless: bool,
    wire_budget: usize,
    budget: Option<usize>,
)
    requires
        b.wf(),
        sound(b.nodes),
        blocks_sound(b.nodes),
        forest_of(b, forest, ids),
        serializable(forest),
        forest_bytes(forest, hashless).len() <= wire_budget,
        budget is Some ==> validation_charge(written_layout(forest, hashless), budget->0) is Ok,
    ensures
        budgeted(forest_bytes(forest, hashless), wire_budget, true) == Ok::<
            (ForestLayout, AdviceModel, nat),
            DeserializationError,
        >(
            (
                written_layout(forest, hashless),
                forest.advice_map,
                forest_bytes(forest, hashless).len(),
            ),
        ),
        validated(
            forest_bytes(forest, hashless),
            written_layout(forest, hashless),
            forest.advice_map,
            budget,
        ) == Ok::<ForestModel, MastForestError>(forest),
{
    law_built_digests_are_recomputed(b, forest, ids);
    law_built_nodes_are_what_was_asked_for(b, forest, ids);
    lemma_forest_without_fault(b, forest, ids, forest.nodes.len());
    law_untrusted_round_trip(forest, hashless, wire_budget, budget);
}

proof fn lemma_forest_without_fault(
    b: BuilderModel,
    forest: ForestModel,
    ids: Seq<Option<u32>>,
    k: nat,
)
    requires
        b.wf(),
        blocks_sound(b.nodes),
        honest(forest.nodes),
        forest_of(b, forest, ids),
        k <= forest.nodes.len(),
    ensures
        forest_fault(forest.nodes, k) is None,
    decreases k,
{
    if k > 0 {
        lemma_forest_without_fault(b, forest, ids, (k - 1) as nat);
        law_built_nodes_are_what_was_asked_for(b, forest, ids);
        let node = forest.nodes[k - 1];
        let r = choose|r: int|
            0 <= r < b.nodes.len() && ids[r] == Some((k - 1) as u32) && does(
                b.nodes[r],
                ids,
                node.kind,
            );
        assert(does(b.nodes[r], ids, node.kind));
    }
}

// MOVING
// ================================================================================================

/// Moving the nodes of a forest keeps what they do: if the digest of every node was the one that its
/// kind gives over its children, it still is; and nothing is lost or added.
pub proof fn law_moved_nodes_do_the_same(before: Seq<NodeModel>, after: Seq<NodeModel>, map: Seq<u32>)
    requires
        is_move(before, after, map),
        honest(before),
        forall|i: int, j: int|
            0 <= i < before.len() && 0 <= j < before[i].kind.children().len() ==> (
            #[trigger] before[i].kind.children()[j]).0 < before.len(),
    ensures
        after.len() == before.len(),
        forall|i: int|
            0 <= i < before.len() ==> {
                let node = after[(#[trigger] map[i]) as int];
                &&& node.digest == before[i].digest
                &&& node.kind.children().len() == before[i].kind.children().len()
                &&& node.digest == crate::node::digest_in(after, node.kind, node.digest)
                &&& forall|j: int|
                    0 <= j < node.kind.children().len() ==> (#[trigger] node.kind.children()[j]).0
                        == map[before[i].kind.children()[j].0 as int]
            },
{
    assert forall|i: int| 0 <= i < before.len() implies {
        let node = after[(#[trigger] map[i]) as int];
        &&& node.digest == before[i].digest
        &&& node.kind.children().len() == before[i].kind.children().len()
        &&& node.digest == crate::node::digest_in(after, node.kind, node.digest)
        &&& forall|j: int|
            0 <= j < node.kind.children().len() ==> (#[trigger] node.kind.children()[j]).0
                == map[before[i].kind.children()[j].0 as int]
    } by {
        let c = before[i].kind.children();
        assert(before[i].digest == crate::node::digest_in(
            before,
            before[i].kind,
            before[i].digest,
        ));
        if c.len() > 0 {
            let x = c[0].0 as int;
            assert(0 <= x < before.len());
            assert(after[map[x] as int] == moved_node(map, before[x]));
        }
        if c.len() > 1 {
            let x = c[1].0 as int;
            assert(0 <= x < before.len());
            assert(after[map[x] as int] == moved_node(map, before[x]));
        }
    }
}

} // verus!
