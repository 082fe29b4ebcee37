//! Turning a forest under construction into a finished forest and its debug graph.

use vstd::prelude::*;

use crate::batch::models;
use crate::block::writable;
use crate::debug_info::{
    asm_op_in, call_frame_in, collect_all, collected, debug_var_in, inline_call_in,
    lemma_collected_error, lookup, remap_asm_op, remap_call_frame, remap_debug_var,
    remap_inline_call, source_models, DebugInfoTableRemapping, DebugSourceAsmOp,
    DebugSourceCallFrame, DebugSourceInlineCall, DebugSourceVar, MissingIndex, SourceModel,
    SourceNode, TablesModel,
};
use crate::dense::parts_wf;
use crate::forest::{dense, MastForest, MastForestError};

use crate::node::{
    children_below, copy_batches, node_models, KindModel, MastNode, MastNodeId, NodeKind, NodeModel,
};
use crate::op_index::{adjust_index, adjusted, padded_len, raw_operations};
use crate::batch::raw_of;
use crate::pending::{
    pending_models, KindName, MastNodeRef, PendingKind, PendingMastNode, PendingMastNodeKind,
    PendingModel, SourceNodeRef,
};

verus! {

/// Why a forest under construction cannot be finished.
#[derive(Clone, Copy, PartialEq, Eq, Structural, Debug)]
pub enum MastForestBuilderError {
    InvalidChildCount { node_ref: MastNodeRef, node_kind: KindName, expected: usize, actual: usize },
    MissingFinalChild { node_ref: MastNodeRef, node_kind: KindName, child_ref: MastNodeRef },
    MissingProcedureRoot { root_ref: MastNodeRef },
    MissingFinalSourceChild { source_ref: SourceNodeRef, child_ref: SourceNodeRef },
    FinalizeForest { source: MastForestError },
    CyclicNodes,
    Missing(MissingIndex),
    /// The tables of debug information have too many entries.
    TablesFull,
    /// An entry of the tables of debug information refers to one that is not there.
    MissingEntry,
    /// The rows of an occurrence speak of operations whose indices do not fit in four bytes once
    /// padding counts.
    RowsOutOfRange { source_ref: SourceNodeRef },
}

// NODES
// ================================================================================================

/// The final id of a pending node.
pub open spec fn final_id(ids: Seq<Option<u32>>, node_ref: u32) -> Option<u32> {
    lookup(ids, node_ref)
}

/// The finished node of a pending node, given the final ids of its children.
pub open spec fn finished(node: PendingModel, node_ref: MastNodeRef, ids: Seq<Option<u32>>) -> Result<
    NodeModel,
    MastForestBuilderError,
> {
    let name = node.kind.name();
    let c = node.child_refs;
    if c.len() != node.kind.arity() {
        Err(
            MastForestBuilderError::InvalidChildCount {
                node_ref,
                node_kind: name,
                expected: node.kind.arity() as usize,
                actual: c.len() as usize,
            },
        )
    } else if c.len() > 0 && final_id(ids, c[0].0) is None {
        Err(
            MastForestBuilderError::MissingFinalChild {
                node_ref,
                node_kind: name,
                child_ref: c[0],
            },
        )
    } else if c.len() > 1 && final_id(ids, c[1].0) is None {
        Err(
            MastForestBuilderError::MissingFinalChild {
                node_ref,
                node_kind: name,
                child_ref: c[1],
            },
        )
    } else {
        let first = MastNodeId(final_id(ids, c[0].0)->0);
        let second = MastNodeId(final_id(ids, c[1].0)->0);
        let kind = match node.kind {
            PendingKind::BasicBlock(batches) => KindModel::Block(batches),
            PendingKind::Join => KindModel::Join(first, second),
            PendingKind::Split => KindModel::Split(first, second),
            PendingKind::Loop => KindModel::Loop(first),
            PendingKind::Call(true) => KindModel::SysCall(first),
            PendingKind::Call(false) => KindModel::Call(first),
            PendingKind::Dyn(true) => KindModel::Dyncall,
            PendingKind::Dyn(false) => KindModel::Dyn,
            PendingKind::External => KindModel::External,
        };
        Ok(NodeModel { kind, digest: node.digest })
    }
}

fn get_final_id(ids: &Vec<Option<u32>>, node_ref: MastNodeRef) -> (id: Option<u32>)
    ensures
        id == final_id(ids@, node_ref.0),
{
    if (node_ref.0 as usize) < ids.len() {
        ids[node_ref.0 as usize]
    } else {
        None
    }
}

/// Checks how many children a pending node has.
pub fn ensure_child_count(node_ref: MastNodeRef, node: &PendingMastNode, expected: usize) -> (res:
    Result<(), MastForestBuilderError>)
    ensures
        res == if node@.child_refs.len() == expected {
            Ok::<(), MastForestBuilderError>(())
        } else {
            Err(
                MastForestBuilderError::InvalidChildCount {
                    node_ref,
                    node_kind: node@.kind.name(),
                    expected,
                    actual: node@.child_refs.len() as usize,
                },
            )
        },
{
    let actual: usize = node.child_refs.len();
    if actual == expected {
        Ok(())
    } else {
        Err(
            MastForestBuilderError::InvalidChildCount {
                node_ref,
                node_kind: node.kind.name(),
                expected,
                actual,
            },
        )
    }
}

/// The final ids of the `expected` children of a pending node.
fn final_child_ids(
    node_ref: MastNodeRef,
    node: &PendingMastNode,
    ids: &Vec<Option<u32>>,
) -> (res: Result<Vec<MastNodeId>, MastForestBuilderError>)
    requires
        node@.child_refs.len() <= 2,
    ensures
        ({
            let c = node@.child_refs;
            let name = node@.kind.name();
            if c.len() > 0 && final_id(ids@, c[0].0) is None {
                res is Err && res->Err_0 == (MastForestBuilderError::MissingFinalChild {
                    node_ref,
                    node_kind: name,
                    child_ref: c[0],
                })
            } else if c.len() > 1 && final_id(ids@, c[1].0) is None {
                res is Err && res->Err_0 == (MastForestBuilderError::MissingFinalChild {
                    node_ref,
                    node_kind: name,
                    child_ref: c[1],
                })
            } else {
                res is Ok && res->Ok_0@.len() == c.len() && forall|i: int|
                    0 <= i < c.len() ==> #[trigger] res->Ok_0@[i] == MastNodeId(
                        final_id(ids@, c[i].0)->0,
                    )
            }
        }),
{
    let mut children: Vec<MastNodeId> = Vec::new();
    let mut i: usize = 0;
    while i < node.child_refs.len()
        invariant
            i <= node@.child_refs.len() <= 2,
            children@.len() == i,
            forall|j: int|
                0 <= j < i ==> final_id(ids@, (#[trigger] node@.child_refs[j]).0) is Some
                    && children@[j] == MastNodeId(final_id(ids@, node@.child_refs[j].0)->0),
        decreases node@.child_refs.len() - i,
    {
        let child_ref = node.child_refs[i];
        assert(child_ref == node@.child_refs[i as int]);
        match get_final_id(ids, child_ref) {
            Some(id) => children.push(MastNodeId(id)),
            None => {
                return Err(
                    MastForestBuilderError::MissingFinalChild {
                        node_ref,
                        node_kind: node.kind.name(),
                        child_ref,
                    },
                );
            },
        }
        i += 1;
    }
    Ok(children)
}

/// Builds the finished node of a pending node. The digest is kept.
///
/// Refuses a node with the wrong number of children, and a child without a final id.
pub fn build_pending_node_with_final_ids(
    node: &PendingMastNode,
    node_ref: MastNodeRef,
    ids: &Vec<Option<u32>>,
) -> (res: Result<MastNode, MastForestBuilderError>)
    ensures
        match finished(node@, node_ref, ids@) {
            Ok(model) => res is Ok && res->Ok_0@ == model,
            Err(e) => res is Err && res->Err_0 == e,
        },
{
    let expected: usize = match &node.kind {
        PendingMastNodeKind::Join => 2,
        PendingMastNodeKind::Split => 2,
        PendingMastNodeKind::Loop => 1,
        PendingMastNodeKind::Call { .. } => 1,
        _ => 0,
    };
    if let Err(e) = ensure_child_count(node_ref, node, expected) {
        return Err(e);
    }
    let children = match final_child_ids(node_ref, node, ids) {
        Ok(children) => children,
        Err(e) => {
            return Err(e);
        },
    };
    let kind = match &node.kind {
        PendingMastNodeKind::BasicBlock { op_batches } => NodeKind::Block(
            copy_batches(op_batches),
        ),
        PendingMastNodeKind::Join => NodeKind::Join(children[0], children[1]),
        PendingMastNodeKind::Split => NodeKind::Split(children[0], children[1]),
        PendingMastNodeKind::Loop => NodeKind::Loop(children[0]),
        PendingMastNodeKind::Call { is_syscall } => if *is_syscall {
            NodeKind::SysCall(children[0])
        } else {
            NodeKind::Call(children[0])
        },
        PendingMastNodeKind::Dyn { is_dyncall } => if *is_dyncall {
            NodeKind::Dyncall
        } else {
            NodeKind::Dyn
        },
        PendingMastNodeKind::External => NodeKind::External,
    };
    Ok(MastNode { kind, digest: node.digest })
}

/// Pending nodes whose digests are canonical and whose blocks can be written.
pub open spec fn pending_wf(nodes: Seq<PendingModel>) -> bool {
    forall|i: int|
        0 <= i < nodes.len() ==> (#[trigger] nodes[i]).digest.wf() && nodes[i].kind.wf()
}

/// The final ids once the first `k` of the live nodes have been finished in order.
pub open spec fn ids_upto(live: Seq<MastNodeRef>, total: nat, k: nat) -> Seq<Option<u32>>
    decreases k,
{
    if k == 0 {
        Seq::new(total, |i: int| None)
    } else {
        ids_upto(live, total, (k - 1) as nat).update(live[k - 1].0 as int, Some((k - 1) as u32))
    }
}

/// The first `k` live nodes, finished in order.
pub open spec fn materialized_upto(
    nodes: Seq<PendingModel>,
    live: Seq<MastNodeRef>,
    k: nat,
) -> Result<Seq<NodeModel>, MastForestBuilderError>
    decreases k,
{
    if k == 0 {
        Ok(Seq::empty())
    } else {
        match materialized_upto(nodes, live, (k - 1) as nat) {
            Err(e) => Err(e),
            Ok(done) => {
                let node_ref = live[k - 1];
                match finished(
                    nodes[node_ref.0 as int],
                    node_ref,
                    ids_upto(live, nodes.len(), (k - 1) as nat),
                ) {
                    Err(e) => Err(e),
                    Ok(node) => Ok(done.push(node)),
                }
            },
        }
    }
}

proof fn lemma_materialized_error(nodes: Seq<PendingModel>, live: Seq<MastNodeRef>, k: nat, n: nat)
    requires
        k <= n,
        materialized_upto(nodes, live, k) is Err,
    ensures
        materialized_upto(nodes, live, n) == materialized_upto(nodes, live, k),
    decreases n - k,
{
    if k < n {
        lemma_materialized_error(nodes, live, k, (n - 1) as nat);
    }
}

/// The ids that have been given out lie below their number.
proof fn lemma_ids_bound(live: Seq<MastNodeRef>, total: nat, k: nat)
    requires
        k <= live.len() <= u32::MAX,
        forall|i: int| 0 <= i < live.len() ==> (#[trigger] live[i]).0 < total,
    ensures
        ids_upto(live, total, k).len() == total,
        forall|i: int|
            0 <= i < total && #[trigger] ids_upto(live, total, k)[i] is Some ==> ids_upto(
                live,
                total,
                k,
            )[i]->0 < k,
    decreases k,
{
    if k > 0 {
        lemma_ids_bound(live, total, (k - 1) as nat);
    }
}

/// Finishes the live nodes in order; a child has to come before its parent.
pub fn materialize_live_nodes(live: &Vec<MastNodeRef>, nodes: &Vec<PendingMastNode>) -> (res:
    Result<(Vec<MastNode>, Vec<Option<u32>>), MastForestBuilderError>)
    requires
        pending_wf(pending_models(nodes@)),
        live@.len() <= u32::MAX,
        forall|i: int| 0 <= i < live@.len() ==> (#[trigger] live@[i]).0 < nodes@.len(),
    ensures
        match materialized_upto(pending_models(nodes@), live@, live@.len()) {
            Ok(done) => {
                &&& res is Ok
                &&& node_models(res->Ok_0.0@) == done
                &&& res->Ok_0.1@ == ids_upto(live@, nodes@.len(), live@.len())
                &&& parts_wf(done)
                &&& forall|i: int|
                    0 <= i < done.len() ==> children_below((#[trigger] done[i]).kind, i)
            },
            Err(e) => res is Err && res->Err_0 == e,
        },
{
    let ghost pending = pending_models(nodes@);
    let total: usize = nodes.len();
    let mut ids: Vec<Option<u32>> = Vec::new();
    let mut k: usize = 0;
    while k < total
        invariant
            k <= total,
            ids@.len() == k,
            forall|i: int| 0 <= i < k ==> #[trigger] ids@[i] is None,
        decreases total - k,
    {
        ids.push(None);
        k += 1;
    }
    let mut done: Vec<MastNode> = Vec::new();
    let mut k: usize = 0;
    assert(ids@ =~= ids_upto(live@, total as nat, 0));
    assert(node_models(done@) =~= Seq::<NodeModel>::empty());
    while k < live.len()
        invariant
            k <= live@.len() <= u32::MAX,
            total == nodes@.len(),
            pending == pending_models(nodes@),
            pending_wf(pending),
            forall|i: int| 0 <= i < live@.len() ==> (#[trigger] live@[i]).0 < nodes@.len(),
            ids@ == ids_upto(live@, total as nat, k as nat),
            done@.len() == k,
            materialized_upto(pending, live@, k as nat) == Ok::<
                Seq<NodeModel>,
                MastForestBuilderError,
            >(node_models(done@)),
            parts_wf(node_models(done@)),
            forall|i: int|
                0 <= i < done@.len() ==> children_below(
                    (#[trigger] node_models(done@)[i]).kind,
                    i,
                ),
        decreases live@.len() - k,
    {
        let node_ref = live[k];
        assert(live@[k as int].0 < nodes@.len());
        let node = &nodes[node_ref.0 as usize];
        assert(pending[node_ref.0 as int] == node@);
        proof {
            lemma_ids_bound(live@, total as nat, k as nat);
            if materialized_upto(pending, live@, (k + 1) as nat) is Err {
                lemma_materialized_error(pending, live@, (k + 1) as nat, live@.len());
            }
        }
        let built = match build_pending_node_with_final_ids(node, node_ref, &ids) {
            Ok(built) => built,
            Err(e) => {
                return Err(e);
            },
        };
        let ghost before = node_models(done@);
        let ghost model = built@;
        proof {
            assert(pending[node_ref.0 as int].digest.wf());
            assert(model.wf());
            let c = node@.child_refs;
            assert(children_below(model.kind, k as int));
        }
        done.push(built);
        ids[node_ref.0 as usize] = Some(k as u32);
        proof {
            assert(node_models(done@) =~= before.push(model));
            assert forall|i: int| 0 <= i < done@.len() implies (#[trigger] node_models(done@)[i]).wf()
                && children_below(node_models(done@)[i].kind, i) by {
                if i < k {
                    assert(node_models(done@)[i] == before[i]);
                }
            }
        }
        k += 1;
    }
    Ok((done, ids))
}

// OPERATION RANGES
// ================================================================================================

/// The index of an operation of a node once padding counts.
pub open spec fn final_index(kind: KindModel, op_idx: nat) -> nat {
    match kind {
        KindModel::Block(batches) => adjusted(batches, op_idx),
        _ => op_idx,
    }
}

/// The number of operations of a node, or of those that the indices speak of, and the indices
/// once padding counts.
pub open spec fn operations_and_mappings(kind: KindModel, mappings: Seq<u32>) -> (nat, Seq<nat>) {
    (
        match kind {
            KindModel::Block(batches) => padded_len(batches),
            _ => largest_end(mappings, mappings.len()),
        },
        Seq::new(mappings.len(), |i: int| final_index(kind, mappings[i] as nat)),
    )
}

/// One more than the largest of the first `k` indices; zero if there is none.
pub open spec fn largest_end(mappings: Seq<u32>, k: nat) -> nat
    decreases k,
{
    if k == 0 {
        0
    } else {
        let below = largest_end(mappings, (k - 1) as nat);
        if mappings[k - 1] + 1 > below {
            (mappings[k - 1] + 1) as nat
        } else {
            below
        }
    }
}

/// The range of an occurrence once padding counts: from its first to its last operation.
pub open spec fn final_source_range(kind: KindModel, op_start: u32, op_end: u32) -> (nat, nat) {
    if op_start == op_end {
        (op_start as nat, op_end as nat)
    } else {
        match kind {
            KindModel::Block(batches) => (
                adjusted(batches, op_start as nat),
                adjusted(batches, (op_end - 1) as nat) + 1,
            ),
            _ => (op_start as nat, op_end as nat),
        }
    }
}

/// The range of a call frame once padding counts: padding before its end belongs to it.
pub open spec fn final_frame_range(kind: KindModel, op_start: u32, op_end: u32) -> (nat, nat) {
    if op_start == op_end {
        (op_start as nat, op_end as nat)
    } else {
        match kind {
            KindModel::Block(batches) => (
                adjusted(batches, op_start as nat),
                if op_end == raw_of(batches).len() {
                    padded_len(batches)
                } else {
                    adjusted(batches, op_end as nat)
                },
            ),
            _ => (op_start as nat, op_end as nat),
        }
    }
}

/// The batches of a block of a finished forest can be written.
pub open spec fn kind_wf(kind: KindModel) -> bool {
    match kind {
        KindModel::Block(batches) => writable(batches),
        _ => true,
    }
}

/// The index of an operation once padding counts.
fn adjust_op(node: &MastNode, op_idx: u32) -> (index: u64)
    requires
        kind_wf(node@.kind),
    ensures
        index == final_index(node@.kind, op_idx as nat),
{
    match &node.kind {
        NodeKind::Block(batches) => adjust_index(batches, op_idx),
        _ => op_idx as u64,
    }
}

/// The number of operations of a block with padding.
pub fn count_operations(batches: &Vec<crate::batch::OpBatch>) -> (count: u64)
    requires
        writable(models(batches@)),
    ensures
        count == padded_len(models(batches@)),
{
    let ghost bs = models(batches@);
    proof {
        crate::op_index::lemma_raw_of_bound(bs);
    }
    let mut count: u64 = 0;
    let mut i: usize = 0;
    assert(crate::block::all_ops(bs.take(0)) =~= Seq::empty());
    while i < batches.len()
        invariant
            i <= batches@.len(),
            bs == models(batches@),
            writable(bs),
            count == crate::block::all_ops(bs.take(i as int)).len(),
            count <= 72 * i,
            batches@.len() <= u32::MAX,
        decreases batches@.len() - i,
    {
        proof {
            assert(bs[i as int].wf());
            crate::op_index::lemma_batch_len(bs[i as int]);
            assert(bs.take(i + 1).drop_last() =~= bs.take(i as int));
            assert(bs.take(i + 1).last() == bs[i as int]);
        }
        count = count + batches[i].ops.len() as u64;
        i += 1;
    }
    assert(bs.take(i as int) =~= bs);
    count
}

/// The number of operations of a node, and indices once padding counts.
pub fn compute_operations_and_adjust_mappings(node: &MastNode, mappings: &Vec<u32>) -> (res: (
    u64,
    Vec<u64>,
))
    requires
        kind_wf(node@.kind),
    ensures
        res.0 == operations_and_mappings(node@.kind, mappings@).0,
        res.1@.len() == mappings@.len(),
        forall|i: int|
            0 <= i < mappings@.len() ==> #[trigger] res.1@[i] == operations_and_mappings(
                node@.kind,
                mappings@,
            ).1[i],
{
    let mut indices: Vec<u64> = Vec::new();
    let mut end: u64 = 0;
    let mut i: usize = 0;
    while i < mappings.len()
        invariant
            i <= mappings@.len(),
            kind_wf(node@.kind),
            indices@.len() == i,
            end == largest_end(mappings@, i as nat),
            forall|j: int|
                0 <= j < i ==> #[trigger] indices@[j] == final_index(
                    node@.kind,
                    mappings@[j] as nat,
                ),
        decreases mappings@.len() - i,
    {
        indices.push(adjust_op(node, mappings[i]));
        if mappings[i] as u64 + 1 > end {
            end = mappings[i] as u64 + 1;
        }
        i += 1;
    }
    let count: u64 = match &node.kind {
        NodeKind::Block(batches) => count_operations(batches),
        _ => end,
    };
    (count, indices)
}

/// The range of an occurrence once padding counts.
pub fn adjust_source_op_range(node: &MastNode, op_start: u32, op_end: u32) -> (range: (u64, u64))
    requires
        kind_wf(node@.kind),
        op_start <= op_end,
    ensures
        range.0 == final_source_range(node@.kind, op_start, op_end).0,
        range.1 == final_source_range(node@.kind, op_start, op_end).1,
{
    if op_start == op_end {
        return (op_start as u64, op_end as u64);
    }
    match &node.kind {
        NodeKind::Block(batches) => {
            proof {
                lemma_adjusted_bound(models(batches@), (op_end - 1) as nat);
            }
            (adjust_index(batches, op_start), adjust_index(batches, op_end - 1) + 1)
        },
        _ => (op_start as u64, op_end as u64),
    }
}

proof fn lemma_adjusted_bound(batches: Seq<crate::batch::BatchModel>, raw: nat)
    requires
        batches.len() <= u32::MAX,
    ensures
        adjusted(batches, raw) <= raw + 8 * batches.len(),
{
    crate::op_index::lemma_boundaries(batches);
    let bounds = crate::op_index::boundaries(batches);
    crate::op_index::lemma_paddings_upto_bound(bounds, raw, bounds.len());
}

/// The range of a call frame once padding counts.
pub fn adjust_call_frame_range(node: &MastNode, op_start: u32, op_end: u32) -> (range: (u64, u64))
    requires
        kind_wf(node@.kind),
    ensures
        range.0 == final_frame_range(node@.kind, op_start, op_end).0,
        range.1 == final_frame_range(node@.kind, op_start, op_end).1,
{
    if op_start == op_end {
        return (op_start as u64, op_end as u64);
    }
    match &node.kind {
        NodeKind::Block(batches) => {
            let raw_op_count: usize = raw_operations(batches).len();
            let start: u64 = adjust_index(batches, op_start);
            let end: u64 = if op_end as usize == raw_op_count {
                count_operations(batches)
            } else {
                adjust_index(batches, op_end)
            };
            (start, end)
        },
        _ => (op_start as u64, op_end as u64),
    }
}

// THE SOURCE GRAPH
// ================================================================================================

/// The occurrences, roots and functions of a forest under construction.
pub struct SourceGraphParts {
    pub nodes: Vec<SourceNode>,
    pub roots: Vec<u32>,
    /// The occurrence of each function, if it has one.
    pub function_sources: Vec<Option<u32>>,
}

/// A finished source graph.
pub struct FinalSourceGraph {
    pub nodes: Vec<SourceNode>,
    pub roots: Vec<u32>,
    /// For each function with an occurrence, its new index and the occurrence.
    pub function_sources: Vec<(u32, u32)>,
    /// The final id of each occurrence that was kept.
    pub source_id_by_ref: Vec<Option<u32>>,
}

/// An occurrence is kept if its execution node is.
pub open spec fn is_live(ids: Seq<Option<u32>>, node: SourceModel) -> bool {
    final_id(ids, node.exec_node) is Some
}

/// How many of the first `k` occurrences are kept.
pub open spec fn live_before(nodes: Seq<SourceModel>, ids: Seq<Option<u32>>, k: nat) -> nat
    decreases k,
{
    if k == 0 {
        0
    } else {
        live_before(nodes, ids, (k - 1) as nat) + if is_live(ids, nodes[k - 1]) {
            1nat
        } else {
            0nat
        }
    }
}

/// The final id of occurrence `i`: kept occurrences are numbered in order.
pub open spec fn source_id(nodes: Seq<SourceModel>, ids: Seq<Option<u32>>, i: nat) -> Option<u32> {
    if i < nodes.len() && is_live(ids, nodes[i as int]) {
        Some(live_before(nodes, ids, i) as u32)
    } else {
        None
    }
}

/// The final id of a child of occurrence `source_ref`.
pub open spec fn final_child(
    nodes: Seq<SourceModel>,
    ids: Seq<Option<u32>>,
    source_ref: u32,
) -> spec_fn(u32) -> Result<u32, MastForestBuilderError> {
    |child: u32|
        match source_id(nodes, ids, child as nat) {
            Some(id) => Ok(id),
            None => Err(
                MastForestBuilderError::MissingFinalSourceChild {
                    source_ref: SourceNodeRef(source_ref),
                    child_ref: SourceNodeRef(child),
                },
            ),
        }
}

pub open spec fn missing<T>(res: Result<T, MissingIndex>) -> Result<T, MastForestBuilderError> {
    match res {
        Ok(t) => Ok(t),
        Err(e) => Err(MastForestBuilderError::Missing(e)),
    }
}

pub open spec fn final_asm_op(kind: KindModel, tables: TablesModel) -> spec_fn(
    DebugSourceAsmOp,
) -> Result<DebugSourceAsmOp, MissingIndex> {
    |row: DebugSourceAsmOp| asm_op_in(row, final_index(kind, row.op_idx as nat) as u32, tables)
}

pub open spec fn final_debug_var(kind: KindModel, tables: TablesModel) -> spec_fn(
    DebugSourceVar,
) -> Result<DebugSourceVar, MissingIndex> {
    |row: DebugSourceVar| debug_var_in(row, final_index(kind, row.op_idx as nat) as u32, tables)
}

pub open spec fn final_inline_call(kind: KindModel, tables: TablesModel) -> spec_fn(
    DebugSourceInlineCall,
) -> Result<DebugSourceInlineCall, MissingIndex> {
    |row: DebugSourceInlineCall|
        inline_call_in(row, final_index(kind, row.op_idx as nat) as u32, tables)
}

pub open spec fn final_call_frame(kind: KindModel, tables: TablesModel) -> spec_fn(
    DebugSourceCallFrame,
) -> Result<DebugSourceCallFrame, MissingIndex> {
    |row: DebugSourceCallFrame|
        {
            let (start, end) = final_frame_range(kind, row.op_start, row.op_end);
            call_frame_in(row, start as u32, end as u32, tables)
        }
}

/// Occurrence `i` of the finished graph, without inlined calls and call frames.
pub open spec fn placed_source(
    forest: Seq<NodeModel>,
    nodes: Seq<SourceModel>,
    ids: Seq<Option<u32>>,
    tables: TablesModel,
    i: nat,
) -> Result<SourceModel, MastForestBuilderError> {
    let node = nodes[i as int];
    let exec_node = final_id(ids, node.exec_node)->0;
    let kind = forest[exec_node as int].kind;
    match collect_all(node.children, final_child(nodes, ids, i as u32)) {
        Err(e) => Err(e),
        Ok(children) => match missing(collect_all(node.asm_ops, final_asm_op(kind, tables))) {
            Err(e) => Err(e),
            Ok(asm_ops) => match missing(
                collect_all(node.debug_vars, final_debug_var(kind, tables)),
            ) {
                Err(e) => Err(e),
                Ok(debug_vars) => {
                    let (start, end) = final_source_range(kind, node.op_start, node.op_end);
                    Ok(
                        SourceModel {
                            exec_node,
                            children,
                            op_start: start as u32,
                            op_end: end as u32,
                            asm_ops,
                            debug_vars,
                            inline_calls: Seq::empty(),
                            call_frames: Seq::empty(),
                        },
                    )
                },
            },
        },
    }
}

/// The kept ones among the first `k` occurrences, without inlined calls and call frames.
pub open spec fn placed_upto(
    forest: Seq<NodeModel>,
    nodes: Seq<SourceModel>,
    ids: Seq<Option<u32>>,
    tables: TablesModel,
    k: nat,
) -> Result<Seq<SourceModel>, MastForestBuilderError>
    decreases k,
{
    if k == 0 {
        Ok(Seq::empty())
    } else {
        match placed_upto(forest, nodes, ids, tables, (k - 1) as nat) {
            Err(e) => Err(e),
            Ok(done) => if is_live(ids, nodes[k - 1]) {
                match placed_source(forest, nodes, ids, tables, (k - 1) as nat) {
                    Err(e) => Err(e),
                    Ok(node) => Ok(done.push(node)),
                }
            } else {
                Ok(done)
            },
        }
    }
}

/// The inlined calls and call frames of occurrence `i`.
pub open spec fn final_calls(
    forest: Seq<NodeModel>,
    nodes: Seq<SourceModel>,
    ids: Seq<Option<u32>>,
    tables: TablesModel,
    i: nat,
) -> Result<(Seq<DebugSourceInlineCall>, Seq<DebugSourceCallFrame>), MastForestBuilderError> {
    let node = nodes[i as int];
    let kind = forest[final_id(ids, node.exec_node)->0 as int].kind;
    match missing(collect_all(node.inline_calls, final_inline_call(kind, tables))) {
        Err(e) => Err(e),
        Ok(inline_calls) => match missing(
            collect_all(node.call_frames, final_call_frame(kind, tables)),
        ) {
            Err(e) => Err(e),
            Ok(call_frames) => Ok((inline_calls, call_frames)),
        },
    }
}

/// `placed` with the inlined calls and call frames of the kept ones among the first `k`
/// occurrences.
pub open spec fn with_calls(
    forest: Seq<NodeModel>,
    nodes: Seq<SourceModel>,
    ids: Seq<Option<u32>>,
    tables: TablesModel,
    placed: Seq<SourceModel>,
    k: nat,
) -> Result<Seq<SourceModel>, MastForestBuilderError>
    decreases k,
{
    if k == 0 {
        Ok(placed)
    } else {
        match with_calls(forest, nodes, ids, tables, placed, (k - 1) as nat) {
            Err(e) => Err(e),
            Ok(done) => if is_live(ids, nodes[k - 1]) {
                match final_calls(forest, nodes, ids, tables, (k - 1) as nat) {
                    Err(e) => Err(e),
                    Ok((inline_calls, call_frames)) => {
                        let at = live_before(nodes, ids, (k - 1) as nat) as int;
                        Ok(
                            done.update(
                                at,
                                SourceModel { inline_calls, call_frames, ..done[at] },
                            ),
                        )
                    },
                }
            } else {
                Ok(done)
            },
        }
    }
}

/// The final ids of the kept ones among the first `k` roots.
pub open spec fn final_roots(
    nodes: Seq<SourceModel>,
    ids: Seq<Option<u32>>,
    roots: Seq<u32>,
    k: nat,
) -> Seq<u32>
    decreases k,
{
    if k == 0 {
        Seq::empty()
    } else {
        match source_id(nodes, ids, roots[k - 1] as nat) {
            Some(id) => final_roots(nodes, ids, roots, (k - 1) as nat).push(id),
            None => final_roots(nodes, ids, roots, (k - 1) as nat),
        }
    }
}

/// The occurrence of function `i`, if it is kept.
pub open spec fn function_occurrence(
    nodes: Seq<SourceModel>,
    ids: Seq<Option<u32>>,
    functions: Seq<Option<u32>>,
    i: int,
) -> Option<u32> {
    match functions[i] {
        Some(source) => source_id(nodes, ids, source as nat),
        None => None,
    }
}

/// The new indices and occurrences of the first `k` functions.
pub open spec fn final_functions(
    nodes: Seq<SourceModel>,
    ids: Seq<Option<u32>>,
    tables: TablesModel,
    functions: Seq<Option<u32>>,
    k: nat,
) -> Seq<(u32, u32)>
    decreases k,
{
    if k == 0 {
        Seq::empty()
    } else {
        match function_occurrence(nodes, ids, functions, k - 1) {
            Some(id) => final_functions(nodes, ids, tables, functions, (k - 1) as nat).push(
                (lookup(tables.functions, (k - 1) as u32)->0, id),
            ),
            None => final_functions(nodes, ids, tables, functions, (k - 1) as nat),
        }
    }
}

/// The rows of an occurrence speak of operations whose padded indices fit in four bytes.
pub open spec fn rows_fit(kind: KindModel, node: SourceModel) -> bool {
    &&& node.op_start <= node.op_end
    &&& final_source_range(kind, node.op_start, node.op_end).0 <= u32::MAX
    &&& final_source_range(kind, node.op_start, node.op_end).1 <= u32::MAX
    &&& forall|i: int|
        0 <= i < node.asm_ops.len() ==> final_index(
            kind,
            (#[trigger] node.asm_ops[i]).op_idx as nat,
        ) <= u32::MAX
    &&& forall|i: int|
        0 <= i < node.debug_vars.len() ==> final_index(
            kind,
            (#[trigger] node.debug_vars[i]).op_idx as nat,
        ) <= u32::MAX
    &&& forall|i: int|
        0 <= i < node.inline_calls.len() ==> final_index(
            kind,
            (#[trigger] node.inline_calls[i]).op_idx as nat,
        ) <= u32::MAX
    &&& forall|i: int|
        0 <= i < node.call_frames.len() ==> {
            let frame = #[trigger] node.call_frames[i];
            let (start, end) = final_frame_range(kind, frame.op_start, frame.op_end);
            start <= u32::MAX && end <= u32::MAX
        }
}

/// Tells whether the rows of an occurrence fit.
fn are_rows_fit(node: &MastNode, source: &SourceNode) -> (res: bool)
    requires
        kind_wf(node@.kind),
    ensures
        res == rows_fit(node@.kind, source@),
{
    let limit: u64 = u32::MAX as u64;
    if source.op_start > source.op_end {
        return false;
    }
    let (start, end) = adjust_source_op_range(node, source.op_start, source.op_end);
    if start > limit || end > limit {
        return false;
    }
    let mut i: usize = 0;
    while i < source.asm_ops.len()
        invariant
            i <= source.asm_ops@.len(),
            limit == u32::MAX,
            kind_wf(node@.kind),
            forall|k: int|
                0 <= k < i ==> final_index(
                    node@.kind,
                    (#[trigger] source.asm_ops@[k]).op_idx as nat,
                ) <= u32::MAX,
        decreases source.asm_ops@.len() - i,
    {
        if adjust_op(node, source.asm_ops[i].op_idx) > limit {
            assert(source@.asm_ops[i as int] == source.asm_ops@[i as int]);
            return false;
        }
        i += 1;
    }
    let mut i: usize = 0;
    while i < source.debug_vars.len()
        invariant
            i <= source.debug_vars@.len(),
            limit == u32::MAX,
            kind_wf(node@.kind),
            forall|k: int|
                0 <= k < i ==> final_index(
                    node@.kind,
                    (#[trigger] source.debug_vars@[k]).op_idx as nat,
                ) <= u32::MAX,
        decreases source.debug_vars@.len() - i,
    {
        if adjust_op(node, source.debug_vars[i].op_idx) > limit {
            assert(source@.debug_vars[i as int] == source.debug_vars@[i as int]);
            return false;
        }
        i += 1;
    }
    let mut i: usize = 0;
    while i < source.inline_calls.len()
        invariant
            i <= source.inline_calls@.len(),
            limit == u32::MAX,
            kind_wf(node@.kind),
            forall|k: int|
                0 <= k < i ==> final_index(
                    node@.kind,
                    (#[trigger] source.inline_calls@[k]).op_idx as nat,
                ) <= u32::MAX,
        decreases source.inline_calls@.len() - i,
    {
        if adjust_op(node, source.inline_calls[i].op_idx) > limit {
            assert(source@.inline_calls[i as int] == source.inline_calls@[i as int]);
            return false;
        }
        i += 1;
    }
    let mut i: usize = 0;
    while i < source.call_frames.len()
        invariant
            i <= source.call_frames@.len(),
            limit == u32::MAX,
            kind_wf(node@.kind),
            forall|k: int|
                0 <= k < i ==> {
                    let frame = #[trigger] source.call_frames@[k];
                    let (start, end) = final_frame_range(node@.kind, frame.op_start, frame.op_end);
                    start <= u32::MAX && end <= u32::MAX
                },
        decreases source.call_frames@.len() - i,
    {
        let (start, end) = adjust_call_frame_range(
            node,
            source.call_frames[i].op_start,
            source.call_frames[i].op_end,
        );
        if start > limit || end > limit {
            assert(source@.call_frames[i as int] == source.call_frames@[i as int]);
            return false;
        }
        i += 1;
    }
    true
}

/// A kept occurrence whose rows do not fit.
pub open spec fn is_misfit(
    forest: Seq<NodeModel>,
    nodes: Seq<SourceModel>,
    ids: Seq<Option<u32>>,
    i: int,
) -> bool {
    is_live(ids, nodes[i]) && !rows_fit(
        forest[final_id(ids, nodes[i].exec_node)->0 as int].kind,
        nodes[i],
    )
}

/// The first kept occurrence whose rows do not fit.
pub fn find_misfit(forest: &MastForest, ids: &Vec<Option<u32>>, nodes: &Vec<SourceNode>) -> (res:
    Option<u32>)
    requires
        nodes@.len() <= u32::MAX,
        forall|i: int|
            0 <= i < ids@.len() && #[trigger] ids@[i] is Some ==> ids@[i]->0 < forest@.nodes.len(),
        forall|i: int| 0 <= i < forest@.nodes.len() ==> kind_wf((#[trigger] forest@.nodes[i]).kind),
    ensures
        ({
            let models = source_models(nodes@);
            match res {
                Some(s) => s < models.len() && is_misfit(forest@.nodes, models, ids@, s as int)
                    && forall|i: int|
                    0 <= i < s ==> !#[trigger] is_misfit(forest@.nodes, models, ids@, i),
                None => forall|i: int|
                    0 <= i < models.len() ==> !#[trigger] is_misfit(forest@.nodes, models, ids@, i),
            }
        }),
{
    let ghost models = source_models(nodes@);
    let n: usize = nodes.len();
    let mut i: usize = 0;
    while i < n
        invariant
            i <= n == nodes@.len() == models.len() <= u32::MAX,
            models == source_models(nodes@),
            forall|i: int|
                0 <= i < ids@.len() && #[trigger] ids@[i] is Some ==> ids@[i]->0
                    < forest@.nodes.len(),
            forall|i: int|
                0 <= i < forest@.nodes.len() ==> kind_wf((#[trigger] forest@.nodes[i]).kind),
            forall|k: int| 0 <= k < i ==> !#[trigger] is_misfit(forest@.nodes, models, ids@, k),
        decreases n - i,
    {
        let exec: usize = nodes[i].exec_node as usize;
        assert(models[i as int] == nodes@[i as int]@);
        if exec < ids.len() {
            if let Some(id) = ids[exec] {
                assert(ids@[exec as int] is Some);
                assert(forest@.nodes[id as int] == forest.nodes@[id as int]@);
                if !are_rows_fit(&forest.nodes[id as usize], &nodes[i]) {
                    return Some(i as u32);
                }
            }
        }
        i += 1;
    }
    None
}

/// What finishing a source graph asks of its parts.
pub open spec fn graph_wf(
    forest: Seq<NodeModel>,
    nodes: Seq<SourceModel>,
    ids: Seq<Option<u32>>,
    tables: TablesModel,
    functions: Seq<Option<u32>>,
) -> bool {
    &&& nodes.len() <= u32::MAX
    &&& functions.len() <= u32::MAX
    &&& forall|i: int|
        0 <= i < ids.len() && #[trigger] ids[i] is Some ==> ids[i]->0 < forest.len()
    &&& forall|i: int| 0 <= i < forest.len() ==> kind_wf((#[trigger] forest[i]).kind)
    &&& forall|i: int|
        0 <= i < nodes.len() && is_live(ids, #[trigger] nodes[i]) ==> rows_fit(
            forest[final_id(ids, nodes[i].exec_node)->0 as int].kind,
            nodes[i],
        )
    &&& forall|i: int|
        0 <= i < functions.len() && #[trigger] function_occurrence(nodes, ids, functions, i) is Some
            ==> lookup(tables.functions, i as u32) is Some
}

pub proof fn lemma_placed_error(
    forest: Seq<NodeModel>,
    nodes: Seq<SourceModel>,
    ids: Seq<Option<u32>>,
    tables: TablesModel,
    k: nat,
    n: nat,
)
    requires
        k <= n,
        placed_upto(forest, nodes, ids, tables, k) is Err,
    ensures
        placed_upto(forest, nodes, ids, tables, n) == placed_upto(forest, nodes, ids, tables, k),
    decreases n - k,
{
    if k < n {
        lemma_placed_error(forest, nodes, ids, tables, k, (n - 1) as nat);
    }
}

pub proof fn lemma_calls_error(
    forest: Seq<NodeModel>,
    nodes: Seq<SourceModel>,
    ids: Seq<Option<u32>>,
    tables: TablesModel,
    placed: Seq<SourceModel>,
    k: nat,
    n: nat,
)
    requires
        k <= n,
        with_calls(forest, nodes, ids, tables, placed, k) is Err,
    ensures
        with_calls(forest, nodes, ids, tables, placed, n) == with_calls(
            forest,
            nodes,
            ids,
            tables,
            placed,
            k,
        ),
    decreases n - k,
{
    if k < n {
        lemma_calls_error(forest, nodes, ids, tables, placed, k, (n - 1) as nat);
    }
}

pub proof fn lemma_live_monotone(nodes: Seq<SourceModel>, ids: Seq<Option<u32>>, i: nat, k: nat)
    requires
        i <= k,
    ensures
        live_before(nodes, ids, i) <= live_before(nodes, ids, k) <= live_before(nodes, ids, i) + (k
            - i),
    decreases k,
{
    if i < k {
        lemma_live_monotone(nodes, ids, i, (k - 1) as nat);
    }
}

fn finalize_children(
    children: &Vec<u32>,
    source_ids: &Vec<Option<u32>>,
    source_ref: u32,
    Ghost(nodes): Ghost<Seq<SourceModel>>,
    Ghost(ids): Ghost<Seq<Option<u32>>>,
) -> (res: Result<Vec<u32>, MastForestBuilderError>)
    requires
        source_ids@.len() == nodes.len(),
        forall|i: int|
            0 <= i < nodes.len() ==> #[trigger] source_ids@[i] == source_id(nodes, ids, i as nat),
    ensures
        match collect_all(children@, final_child(nodes, ids, source_ref)) {
            Ok(done) => res is Ok && res->Ok_0@ == done,
            Err(e) => res is Err && res->Err_0 == e,
        },
{
    let ghost f = final_child(nodes, ids, source_ref);
    let mut done: Vec<u32> = Vec::new();
    let mut i: usize = 0;
    while i < children.len()
        invariant
            i <= children@.len(),
            source_ids@.len() == nodes.len(),
            forall|i: int|
                0 <= i < nodes.len() ==> #[trigger] source_ids@[i] == source_id(
                    nodes,
                    ids,
                    i as nat,
                ),
            f == final_child(nodes, ids, source_ref),
            collected(children@, f, i as nat) == Ok::<Seq<u32>, MastForestBuilderError>(done@),
        decreases children@.len() - i,
    {
        let child: u32 = children[i];
        let id: Option<u32> = if (child as usize) < source_ids.len() {
            source_ids[child as usize]
        } else {
            None
        };
        assert(id == source_id(nodes, ids, child as nat));
        match id {
            Some(id) => done.push(id),
            None => {
                proof {
                    lemma_collected_error(children@, f, (i + 1) as nat, children@.len());
                }
                return Err(
                    MastForestBuilderError::MissingFinalSourceChild {
                        source_ref: SourceNodeRef(source_ref),
                        child_ref: SourceNodeRef(child),
                    },
                );
            },
        }
        i += 1;
    }
    Ok(done)
}

fn finalize_asm_ops(
    rows: &Vec<DebugSourceAsmOp>,
    node: &MastNode,
    tables: &DebugInfoTableRemapping,
) -> (res: Result<Vec<DebugSourceAsmOp>, MissingIndex>)
    requires
        kind_wf(node@.kind),
        forall|i: int|
            0 <= i < rows@.len() ==> final_index(node@.kind, (#[trigger] rows@[i]).op_idx as nat)
                <= u32::MAX,
    ensures
        match collect_all(rows@, final_asm_op(node@.kind, tables@)) {
            Ok(done) => res is Ok && res->Ok_0@ == done,
            Err(e) => res is Err && res->Err_0 == e,
        },
{
    let ghost f = final_asm_op(node@.kind, tables@);
    let mut done: Vec<DebugSourceAsmOp> = Vec::new();
    let mut i: usize = 0;
    while i < rows.len()
        invariant
            i <= rows@.len(),
            kind_wf(node@.kind),
            forall|i: int|
                0 <= i < rows@.len() ==> final_index(
                    node@.kind,
                    (#[trigger] rows@[i]).op_idx as nat,
                ) <= u32::MAX,
            f == final_asm_op(node@.kind, tables@),
            collected(rows@, f, i as nat) == Ok::<Seq<DebugSourceAsmOp>, MissingIndex>(done@),
        decreases rows@.len() - i,
    {
        let row = rows[i];
        assert(final_index(node@.kind, rows@[i as int].op_idx as nat) <= u32::MAX);
        let op_idx: u32 = adjust_op(node, row.op_idx) as u32;
        match remap_asm_op(row, op_idx, tables) {
            Ok(row) => done.push(row),
            Err(e) => {
                proof {
                    lemma_collected_error(rows@, f, (i + 1) as nat, rows@.len());
                }
                return Err(e);
            },
        }
        i += 1;
    }
    Ok(done)
}

fn finalize_debug_vars(
    rows: &Vec<DebugSourceVar>,
    node: &MastNode,
    tables: &DebugInfoTableRemapping,
) -> (res: Result<Vec<DebugSourceVar>, MissingIndex>)
    requires
        kind_wf(node@.kind),
        forall|i: int|
            0 <= i < rows@.len() ==> final_index(node@.kind, (#[trigger] rows@[i]).op_idx as nat)
                <= u32::MAX,
    ensures
        match collect_all(rows@, final_debug_var(node@.kind, tables@)) {
            Ok(done) => res is Ok && res->Ok_0@ == done,
            Err(e) => res is Err && res->Err_0 == e,
        },
{
    let ghost f = final_debug_var(node@.kind, tables@);
    let mut done: Vec<DebugSourceVar> = Vec::new();
    let mut i: usize = 0;
    while i < rows.len()
        invariant
            i <= rows@.len(),
            kind_wf(node@.kind),
            forall|i: int|
                0 <= i < rows@.len() ==> final_index(
                    node@.kind,
                    (#[trigger] rows@[i]).op_idx as nat,
                ) <= u32::MAX,
            f == final_debug_var(node@.kind, tables@),
            collected(rows@, f, i as nat) == Ok::<Seq<DebugSourceVar>, MissingIndex>(done@),
        decreases rows@.len() - i,
    {
        let row = rows[i];
        assert(final_index(node@.kind, rows@[i as int].op_idx as nat) <= u32::MAX);
        let op_idx: u32 = adjust_op(node, row.op_idx) as u32;
        match remap_debug_var(row, op_idx, tables) {
            Ok(row) => done.push(row),
            Err(e) => {
                proof {
                    lemma_collected_error(rows@, f, (i + 1) as nat, rows@.len());
                }
                return Err(e);
            },
        }
        i += 1;
    }
    Ok(done)
}

fn finalize_inline_calls(
    rows: &Vec<DebugSourceInlineCall>,
    node: &MastNode,
    tables: &DebugInfoTableRemapping,
) -> (res: Result<Vec<DebugSourceInlineCall>, MissingIndex>)
    requires
        kind_wf(node@.kind),
        forall|i: int|
            0 <= i < rows@.len() ==> final_index(node@.kind, (#[trigger] rows@[i]).op_idx as nat)
                <= u32::MAX,
    ensures
        match collect_all(rows@, final_inline_call(node@.kind, tables@)) {
            Ok(done) => res is Ok && res->Ok_0@ == done,
            Err(e) => res is Err && res->Err_0 == e,
        },
{
    let ghost f = final_inline_call(node@.kind, tables@);
    let mut done: Vec<DebugSourceInlineCall> = Vec::new();
    let mut i: usize = 0;
    while i < rows.len()
        invariant
            i <= rows@.len(),
            kind_wf(node@.kind),
            forall|i: int|
                0 <= i < rows@.len() ==> final_index(
                    node@.kind,
                    (#[trigger] rows@[i]).op_idx as nat,
                ) <= u32::MAX,
            f == final_inline_call(node@.kind, tables@),
            collected(rows@, f, i as nat) == Ok::<Seq<DebugSourceInlineCall>, MissingIndex>(done@),
        decreases rows@.len() - i,
    {
        let row = rows[i];
        assert(final_index(node@.kind, rows@[i as int].op_idx as nat) <= u32::MAX);
        let op_idx: u32 = adjust_op(node, row.op_idx) as u32;
        match remap_inline_call(row, op_idx, tables) {
            Ok(row) => done.push(row),
            Err(e) => {
                proof {
                    lemma_collected_error(rows@, f, (i + 1) as nat, rows@.len());
                }
                return Err(e);
            },
        }
        i += 1;
    }
    Ok(done)
}

fn finalize_call_frames(
    rows: &Vec<DebugSourceCallFrame>,
    node: &MastNode,
    tables: &DebugInfoTableRemapping,
) -> (res: Result<Vec<DebugSourceCallFrame>, MissingIndex>)
    requires
        kind_wf(node@.kind),
        forall|i: int|
            0 <= i < rows@.len() ==> {
                let frame = #[trigger] rows@[i];
                let (start, end) = final_frame_range(node@.kind, frame.op_start, frame.op_end);
                start <= u32::MAX && end <= u32::MAX
            },
    ensures
        match collect_all(rows@, final_call_frame(node@.kind, tables@)) {
            Ok(done) => res is Ok && res->Ok_0@ == done,
            Err(e) => res is Err && res->Err_0 == e,
        },
{
    let ghost f = final_call_frame(node@.kind, tables@);
    let mut done: Vec<DebugSourceCallFrame> = Vec::new();
    let mut i: usize = 0;
    while i < rows.len()
        invariant
            i <= rows@.len(),
            kind_wf(node@.kind),
            forall|i: int|
                0 <= i < rows@.len() ==> {
                    let frame = #[trigger] rows@[i];
                    let (start, end) = final_frame_range(node@.kind, frame.op_start, frame.op_end);
                    start <= u32::MAX && end <= u32::MAX
                },
            f == final_call_frame(node@.kind, tables@),
            collected(rows@, f, i as nat) == Ok::<Seq<DebugSourceCallFrame>, MissingIndex>(done@),
        decreases rows@.len() - i,
    {
        let row = rows[i];
        assert(row == rows@[i as int]);
        let (start, end) = adjust_call_frame_range(node, row.op_start, row.op_end);
        match remap_call_frame(row, start as u32, end as u32, tables) {
            Ok(row) => done.push(row),
            Err(e) => {
                proof {
                    lemma_collected_error(rows@, f, (i + 1) as nat, rows@.len());
                }
                return Err(e);
            },
        }
        i += 1;
    }
    Ok(done)
}

/// The final ids of the occurrences that are kept.
fn number_sources(nodes: &Vec<SourceNode>, ids: &Vec<Option<u32>>) -> (source_ids: Vec<
    Option<u32>,
>)
    requires
        nodes@.len() <= u32::MAX,
    ensures
        source_ids@.len() == nodes@.len(),
        forall|i: int|
            0 <= i < nodes@.len() ==> #[trigger] source_ids@[i] == source_id(
                source_models(nodes@),
                ids@,
                i as nat,
            ),
{
    let ghost sources = source_models(nodes@);
    let mut source_ids: Vec<Option<u32>> = Vec::new();
    let mut next: u32 = 0;
    let mut i: usize = 0;
    while i < nodes.len()
        invariant
            i <= nodes@.len() <= u32::MAX,
            sources == source_models(nodes@),
            next <= i,
            next == live_before(sources, ids@, i as nat),
            source_ids@.len() == i,
            forall|j: int|
                0 <= j < i ==> #[trigger] source_ids@[j] == source_id(sources, ids@, j as nat),
        decreases nodes@.len() - i,
    {
        assert(sources[i as int] == nodes@[i as int]@);
        match get_final_id(ids, MastNodeRef(nodes[i].exec_node)) {
            Some(_) => {
                source_ids.push(Some(next));
                next = next + 1;
            },
            None => source_ids.push(None),
        }
        i += 1;
    }
    source_ids
}

/// Finishes a source graph: keeps the occurrences whose execution nodes are kept, numbers them in
/// order, counts operations with padding, and moves every row to the finished tables.
///
/// Refuses a kept occurrence with a child that is not kept, and rows that refer to entries that
/// the tables do not have.
pub fn finalize_source_graph(
    forest: &MastForest,
    ids: &Vec<Option<u32>>,
    graph: &SourceGraphParts,
    tables: &DebugInfoTableRemapping,
) -> (res: Result<FinalSourceGraph, MastForestBuilderError>)
    requires
        graph_wf(
            forest@.nodes,
            source_models(graph.nodes@),
            ids@,
            tables@,
            graph.function_sources@,
        ),
    ensures
        ({
            let nodes = source_models(graph.nodes@);
            match placed_upto(forest@.nodes, nodes, ids@, tables@, nodes.len()) {
                Err(e) => res is Err && res->Err_0 == e,
                Ok(placed) => match with_calls(
                    forest@.nodes,
                    nodes,
                    ids@,
                    tables@,
                    placed,
                    nodes.len(),
                ) {
                    Err(e) => res is Err && res->Err_0 == e,
                    Ok(finished) => {
                        &&& res is Ok
                        &&& source_models(res->Ok_0.nodes@) == finished
                        &&& res->Ok_0.roots@ == final_roots(
                            nodes,
                            ids@,
                            graph.roots@,
                            graph.roots@.len(),
                        )
                        &&& res->Ok_0.function_sources@ == final_functions(
                            nodes,
                            ids@,
                            tables@,
                            graph.function_sources@,
                            graph.function_sources@.len(),
                        )
                        &&& res->Ok_0.source_id_by_ref@.len() == nodes.len()
                        &&& forall|i: int|
                            0 <= i < nodes.len() ==> #[trigger] res->Ok_0.source_id_by_ref@[i]
                                == source_id(nodes, ids@, i as nat)
                    },
                },
            }
        }),
{
    let ghost nodes = source_models(graph.nodes@);
    let ghost final_nodes = forest@.nodes;
    let n: usize = graph.nodes.len();
    let source_ids = number_sources(&graph.nodes, ids);
    let mut finished: Vec<SourceNode> = Vec::new();
    let mut i: usize = 0;
    assert(source_models(finished@) =~= Seq::<SourceModel>::empty());
    while i < n
        invariant
            i <= n == graph.nodes@.len(),
            nodes == source_models(graph.nodes@),
            final_nodes == forest@.nodes,
            graph_wf(final_nodes, nodes, ids@, tables@, graph.function_sources@),
            source_ids@.len() == n,
            forall|i: int|
                0 <= i < n ==> #[trigger] source_ids@[i] == source_id(nodes, ids@, i as nat),
            finished@.len() == live_before(nodes, ids@, i as nat),
            placed_upto(final_nodes, nodes, ids@, tables@, i as nat) == Ok::<
                Seq<SourceModel>,
                MastForestBuilderError,
            >(source_models(finished@)),
        decreases n - i,
    {
        let pending = &graph.nodes[i];
        assert(nodes[i as int] == pending@);
        proof {
            if placed_upto(final_nodes, nodes, ids@, tables@, (i + 1) as nat) is Err {
                lemma_placed_error(
                    final_nodes,
                    nodes,
                    ids@,
                    tables@,
                    (i + 1) as nat,
                    n as nat,
                );
            }
        }
        if let Some(exec_node) = get_final_id(ids, MastNodeRef(pending.exec_node)) {
            assert(is_live(ids@, nodes[i as int]));
            assert(ids@[pending.exec_node as int] is Some);
            let node = &forest.nodes[exec_node as usize];
            assert(final_nodes[exec_node as int] == node@);
            assert(rows_fit(node@.kind, nodes[i as int]));
            assert(kind_wf(final_nodes[exec_node as int].kind));
            let children = match finalize_children(
                &pending.children,
                &source_ids,
                i as u32,
                Ghost(nodes),
                Ghost(ids@),
            ) {
                Ok(children) => children,
                Err(e) => {
                    return Err(e);
                },
            };
            let asm_ops = match finalize_asm_ops(&pending.asm_ops, node, tables) {
                Ok(rows) => rows,
                Err(e) => {
                    return Err(MastForestBuilderError::Missing(e));
                },
            };
            let debug_vars = match finalize_debug_vars(&pending.debug_vars, node, tables) {
                Ok(rows) => rows,
                Err(e) => {
                    return Err(MastForestBuilderError::Missing(e));
                },
            };
            let (op_start, op_end) = adjust_source_op_range(
                node,
                pending.op_start,
                pending.op_end,
            );
            let ghost before = source_models(finished@);
            let done = SourceNode {
                exec_node,
                children,
                op_start: op_start as u32,
                op_end: op_end as u32,
                asm_ops,
                debug_vars,
                inline_calls: Vec::new(),
                call_frames: Vec::new(),
            };
            let ghost model = done@;
            assert(model.inline_calls =~= Seq::empty());
            assert(model.call_frames =~= Seq::empty());
            finished.push(done);
            assert(source_models(finished@) =~= before.push(model));
        }
        i += 1;
    }
    let ghost placed = source_models(finished@);
    let mut i: usize = 0;
    while i < n
        invariant
            i <= n == graph.nodes@.len(),
            nodes == source_models(graph.nodes@),
            final_nodes == forest@.nodes,
            graph_wf(final_nodes, nodes, ids@, tables@, graph.function_sources@),
            source_ids@.len() == n,
            forall|i: int|
                0 <= i < n ==> #[trigger] source_ids@[i] == source_id(nodes, ids@, i as nat),
            finished@.len() == live_before(nodes, ids@, n as nat),
            placed_upto(final_nodes, nodes, ids@, tables@, n as nat) == Ok::<
                Seq<SourceModel>,
                MastForestBuilderError,
            >(placed),
            with_calls(final_nodes, nodes, ids@, tables@, placed, i as nat) == Ok::<
                Seq<SourceModel>,
                MastForestBuilderError,
            >(source_models(finished@)),
        decreases n - i,
    {
        let pending = &graph.nodes[i];
        assert(nodes[i as int] == pending@);
        proof {
            if with_calls(final_nodes, nodes, ids@, tables@, placed, (i + 1) as nat) is Err {
                lemma_calls_error(
                    final_nodes,
                    nodes,
                    ids@,
                    tables@,
                    placed,
                    (i + 1) as nat,
                    n as nat,
                );
            }
            lemma_live_monotone(nodes, ids@, (i + 1) as nat, n as nat);
        }
        if let Some(source_id) = source_ids[i] {
            assert(source_ids@[i as int] == Some(source_id));
            assert(is_live(ids@, nodes[i as int]));
            proof {
                lemma_live_monotone(nodes, ids@, 0, i as nat);
            }
            let exec_node: u32 = match get_final_id(ids, MastNodeRef(pending.exec_node)) {
                Some(id) => id,
                None => {
                    assert(false);
                    0
                },
            };
            assert(ids@[pending.exec_node as int] is Some);
            let node = &forest.nodes[exec_node as usize];
            assert(final_nodes[exec_node as int] == node@);
            assert(rows_fit(node@.kind, nodes[i as int]));
            assert(kind_wf(final_nodes[exec_node as int].kind));
            let inline_calls = match finalize_inline_calls(&pending.inline_calls, node, tables) {
                Ok(rows) => rows,
                Err(e) => {
                    return Err(MastForestBuilderError::Missing(e));
                },
            };
            let call_frames = match finalize_call_frames(&pending.call_frames, node, tables) {
                Ok(rows) => rows,
                Err(e) => {
                    return Err(MastForestBuilderError::Missing(e));
                },
            };
            let ghost before = source_models(finished@);
            let ghost calls = inline_calls@;
            let ghost frames = call_frames@;
            let at: usize = source_id as usize;
            let mut done = finished[at].copy();
            done.inline_calls = inline_calls;
            done.call_frames = call_frames;
            let ghost model = done@;
            finished[at] = done;
            assert(source_models(finished@) =~= before.update(
                at as int,
                (SourceModel { inline_calls: calls, call_frames: frames, ..before[at as int] }),
            ));
        }
        i += 1;
    }
    let mut roots: Vec<u32> = Vec::new();
    let mut i: usize = 0;
    while i < graph.roots.len()
        invariant
            i <= graph.roots@.len(),
            nodes == source_models(graph.nodes@),
            n == nodes.len(),
            source_ids@.len() == n,
            forall|i: int|
                0 <= i < n ==> #[trigger] source_ids@[i] == source_id(nodes, ids@, i as nat),
            roots@ == final_roots(nodes, ids@, graph.roots@, i as nat),
        decreases graph.roots@.len() - i,
    {
        let root: usize = graph.roots[i] as usize;
        if root < source_ids.len() {
            assert(source_ids@[root as int] == source_id(nodes, ids@, root as nat));
            if let Some(id) = source_ids[root] {
                roots.push(id);
            }
        }
        i += 1;
    }
    let mut function_sources: Vec<(u32, u32)> = Vec::new();
    let mut i: usize = 0;
    while i < graph.function_sources.len()
        invariant
            i <= graph.function_sources@.len(),
            nodes == source_models(graph.nodes@),
            n == nodes.len(),
            graph_wf(final_nodes, nodes, ids@, tables@, graph.function_sources@),
            source_ids@.len() == n,
            forall|i: int|
                0 <= i < n ==> #[trigger] source_ids@[i] == source_id(nodes, ids@, i as nat),
            function_sources@ == final_functions(
                nodes,
                ids@,
                tables@,
                graph.function_sources@,
                i as nat,
            ),
        decreases graph.function_sources@.len() - i,
    {
        if let Some(source) = graph.function_sources[i] {
            if (source as usize) < source_ids.len() {
                assert(source_ids@[source as int] == source_id(nodes, ids@, source as nat));
                if let Some(id) = source_ids[source as usize] {
                    assert(function_occurrence(nodes, ids@, graph.function_sources@, i as int)
                        == Some(id));
                    let index: u32 = match tables.function(i as u32) {
                        Some(index) => index,
                        None => {
                            assert(false);
                            0
                        },
                    };
                    function_sources.push((index, id));
                }
            }
        }
        i += 1;
    }
    Ok(FinalSourceGraph { nodes: finished, roots, function_sources, source_id_by_ref: source_ids })
}

proof fn lemma_mappings_below(mappings: Seq<u32>, k: nat, i: int)
    requires
        0 <= i < k <= mappings.len(),
    ensures
        mappings[i] < largest_end(mappings, k),
    decreases k,
{
    if i < k - 1 {
        lemma_mappings_below(mappings, (k - 1) as nat, i);
    }
}

/// The operations of a node are as many as it takes for all indices into them to speak of one.
pub proof fn law_mappings_speak_of_operations(kind: KindModel, mappings: Seq<u32>, i: int)
    requires
        kind_wf(kind),
        0 <= i < mappings.len(),
        kind matches KindModel::Block(batches) ==> mappings[i] < raw_of(batches).len(),
    ensures
        ({
            let (count, indices) = operations_and_mappings(kind, mappings);
            &&& indices.len() == mappings.len()
            &&& indices[i] < count
            &&& kind matches KindModel::Block(batches) ==> crate::block::all_ops(
                batches,
            )[indices[i] as int] == raw_of(batches)[mappings[i] as int] && count
                == crate::block::all_ops(batches).len()
            &&& !(kind is Block) ==> indices[i] == mappings[i]
        }),
{
    match kind {
        KindModel::Block(batches) => {
            assert(crate::op_index::batches_wf(batches));
            crate::op_index::law_adjusted_index_finds_the_operation(batches, mappings[i] as nat);
        },
        _ => {
            lemma_mappings_below(mappings, mappings.len(), i);
        },
    }
}

} // verus!
