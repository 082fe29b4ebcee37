//! Joining uses of nodes: adjacent basic blocks become one block, the rest a balanced tree.

use vstd::prelude::*;

use crate::batch::{
    batch_operations, batched, models, raw_below, raw_group, raw_of, BatchModel,
};
use crate::builder::{
    code_kept, control_draft, digest_of_ref, draft_key, draft_op_count, extends, first_row, interned_nodes,
    interned_ref, is_quiet, is_roomy, is_settled, law_interned_once, lemma_control_count,
    lemma_entries_kept, lemma_interned_code_kept, lemma_extends_refl, lemma_extends_trans, lemma_recorded_quiet,
    lemma_roomy_records, node_ok, record_failed, recorded, spent, AssemblyOp, BuilderModel,
    MastForestBuilder,
};
use crate::debug_info::{
    copy_vec, DebugSourceAsmOp, DebugSourceCallFrame, DebugSourceInlineCall, DebugSourceVar,
    SourceModel, SourceNode,
};
use crate::hasher::{merge_in_domain, merge_in_domain_spec};
use crate::node::{block_digest, digest_of_batches, JOIN_DOMAIN};
use crate::op_index::{batches_wf, raw_operations};
use crate::operation::Operation;
use crate::pending::{
    bare_draft, DraftModel, MastNodeRef, MastNodeUse, PendingKind, PendingMastNodeDraft,
    PendingMastNodeKind, PendingModel,
};
use crate::source_graph::{appended, functions_of, range_ok, BuildError, GraphModel};

verus! {

/// From this many batches on a procedure is not merged into its surroundings.
pub const PROCEDURE_INLINING_THRESHOLD: usize = 32;

/// Whether a block is merged with its neighbours: a procedure only if it is small.
pub fn should_merge(is_procedure: bool, num_op_batches: usize) -> (res: bool)
    ensures
        res == (!is_procedure || num_op_batches < PROCEDURE_INLINING_THRESHOLD),
{
    !is_procedure || num_op_batches < PROCEDURE_INLINING_THRESHOLD
}

// MOVING ROWS
// ================================================================================================

/// An index can be moved along with the start of its range.
pub open spec fn can_move(idx: u32, from: u32, to: u32) -> bool {
    from <= idx && idx - from + to <= u32::MAX
}

/// An index moved along with the start of its range.
pub open spec fn moved_index(idx: u32, from: u32, to: u32) -> u32 {
    (idx - from + to) as u32
}

/// The rows of an occurrence.
pub ghost struct RowsModel {
    pub asm_ops: Seq<DebugSourceAsmOp>,
    pub debug_vars: Seq<DebugSourceVar>,
    pub inline_calls: Seq<DebugSourceInlineCall>,
    pub call_frames: Seq<DebugSourceCallFrame>,
}

pub open spec fn moved_asm_ops(rows: Seq<DebugSourceAsmOp>, from: u32, to: u32) -> Seq<
    DebugSourceAsmOp,
> {
    Seq::new(
        rows.len(),
        |i: int| DebugSourceAsmOp { op_idx: moved_index(rows[i].op_idx, from, to), ..rows[i] },
    )
}

pub open spec fn moved_debug_vars(rows: Seq<DebugSourceVar>, from: u32, to: u32) -> Seq<
    DebugSourceVar,
> {
    Seq::new(
        rows.len(),
        |i: int| DebugSourceVar { op_idx: moved_index(rows[i].op_idx, from, to), ..rows[i] },
    )
}

pub open spec fn moved_inline_calls(rows: Seq<DebugSourceInlineCall>, from: u32, to: u32) -> Seq<
    DebugSourceInlineCall,
> {
    Seq::new(
        rows.len(),
        |i: int| DebugSourceInlineCall { op_idx: moved_index(rows[i].op_idx, from, to), ..rows[i] },
    )
}

pub open spec fn moved_call_frames(rows: Seq<DebugSourceCallFrame>, from: u32, to: u32) -> Seq<
    DebugSourceCallFrame,
> {
    Seq::new(
        rows.len(),
        |i: int|
            DebugSourceCallFrame {
                op_start: moved_index(rows[i].op_start, from, to),
                op_end: moved_index(rows[i].op_end, from, to),
                ..rows[i]
            },
    )
}

/// The rows of an occurrence can be moved along with operations that move to `to`.
pub open spec fn movable(node: SourceModel, to: u32) -> bool {
    &&& node.op_end - node.op_start + to <= u32::MAX
    &&& forall|i: int|
        0 <= i < node.asm_ops.len() ==> row_movable(node, (#[trigger] node.asm_ops[i]).op_idx, to)
    &&& forall|i: int|
        0 <= i < node.debug_vars.len() ==> row_movable(
            node,
            (#[trigger] node.debug_vars[i]).op_idx,
            to,
        )
    &&& forall|i: int|
        0 <= i < node.inline_calls.len() ==> row_movable(
            node,
            (#[trigger] node.inline_calls[i]).op_idx,
            to,
        )
    &&& forall|i: int|
        0 <= i < node.call_frames.len() ==> row_movable(
            node,
            (#[trigger] node.call_frames[i]).op_start,
            to,
        ) && row_movable(node, node.call_frames[i].op_end, to)
}

/// A row is not before the range of its occurrence, and has an index after the move.
pub open spec fn row_movable(node: SourceModel, idx: u32, to: u32) -> bool {
    node.op_start <= idx && idx + to <= u32::MAX
}

/// The occurrence of one of the uses cannot be moved behind at most `total` operations.
pub open spec fn has_unmovable(g: GraphModel, uses: Seq<MastNodeUse>, total: nat) -> bool {
    exists|i: int, to: u32|
        0 <= i < uses.len() && to <= total && #[trigger] is_unmovable(g, uses[i], to)
}

/// The occurrence of a use cannot be moved.
pub open spec fn is_unmovable(g: GraphModel, u: MastNodeUse, to: u32) -> bool {
    !movable(g.nodes[u.source_ref.0 as int], to)
}

/// There are too many nodes or occurrences, or occurrences cannot be resolved.
pub open spec fn is_lack(e: BuildError) -> bool {
    e == BuildError::TooManyNodes || e == BuildError::TooManySources || e
        == BuildError::TooManyInlineCalls || e == BuildError::CyclicSources
}

/// A builder grew by at most so many nodes and occurrences, none of which is to be resolved.
pub open spec fn grew_by(b: BuilderModel, after: BuilderModel, nodes: nat, sources: nat) -> bool {
    is_quiet(b) ==> is_quiet(after) && after.nodes.len() <= b.nodes.len() + nodes
        && after.graph.nodes.len() <= b.graph.nodes.len() + sources
}

/// Why the blocks among uses cannot be merged: the forest cannot be built further, rows of one of
/// their occurrences cannot be moved, or they have more operations than can be counted.
#[verifier::opaque]
pub open spec fn merge_failed(
    after: BuilderModel,
    uses: Seq<MastNodeUse>,
    e: BuildError,
) -> bool {
    let total = total_ops(after, uses);
    ||| spent(after, e)
    ||| e == BuildError::RowsOutOfRange && (total > u32::MAX || has_unmovable(
        after.graph,
        uses,
        total,
    ))
    ||| e == BuildError::TooManyOperations && total > u32::MAX
}

/// One of the uses is a block without operations.
pub open spec fn has_empty_block(b: BuilderModel, uses: Seq<MastNodeUse>) -> bool {
    exists|i: int|
        0 <= i < uses.len() && b.nodes[(#[trigger] uses[i]).node_ref.0 as int].kind is BasicBlock
            && use_ops(b, uses[i]).len() == 0
}

/// Why uses cannot be joined: their blocks cannot be merged, or one of them is empty.
pub open spec fn join_failed(
    b: BuilderModel,
    after: BuilderModel,
    uses: Seq<MastNodeUse>,
    e: BuildError,
) -> bool {
    ||| merge_failed(after, uses, e)
    ||| e == BuildError::EmptyBasicBlock && has_empty_block(b, uses)
}

/// Blocks that become known have operations.
pub open spec fn blocks_have_ops(before: Seq<PendingModel>, after: Seq<PendingModel>) -> bool {
    forall|r: int|
        0 <= r < before.len() && (#[trigger] before[r]).kind is External ==> (
        after[r].kind matches PendingKind::BasicBlock(batches) ==> raw_of(batches).len() > 0)
}

/// The number of operations of the blocks among uses.
pub open spec fn total_ops(b: BuilderModel, uses: Seq<MastNodeUse>) -> nat {
    run_ops(b, uses, uses.len()).len()
}

pub(crate) fn move_asm_ops(rows: &Vec<DebugSourceAsmOp>, from: u32, to: u32) -> (res: Option<
    Vec<DebugSourceAsmOp>,
>)
    ensures
        match res {
            Some(moved) => moved@ == moved_asm_ops(rows@, from, to),
            None => exists|i: int|
                0 <= i < rows@.len() && !can_move((#[trigger] rows@[i]).op_idx, from, to),
        },
{
    let mut moved: Vec<DebugSourceAsmOp> = Vec::new();
    let mut i: usize = 0;
    while i < rows.len()
        invariant
            i <= rows@.len(),
            moved@ =~= moved_asm_ops(rows@, from, to).take(i as int),
        decreases rows@.len() - i,
    {
        let mut row = rows[i];
        if row.op_idx < from || row.op_idx - from > u32::MAX - to {
            assert(!can_move(rows@[i as int].op_idx, from, to));
            return None;
        }
        row.op_idx = row.op_idx - from + to;
        moved.push(row);
        i += 1;
    }
    assert(moved@ =~= moved_asm_ops(rows@, from, to));
    Some(moved)
}

pub(crate) fn move_debug_vars(rows: &Vec<DebugSourceVar>, from: u32, to: u32) -> (res: Option<
    Vec<DebugSourceVar>,
>)
    ensures
        match res {
            Some(moved) => moved@ == moved_debug_vars(rows@, from, to),
            None => exists|i: int|
                0 <= i < rows@.len() && !can_move((#[trigger] rows@[i]).op_idx, from, to),
        },
{
    let mut moved: Vec<DebugSourceVar> = Vec::new();
    let mut i: usize = 0;
    while i < rows.len()
        invariant
            i <= rows@.len(),
            moved@ =~= moved_debug_vars(rows@, from, to).take(i as int),
        decreases rows@.len() - i,
    {
        let mut row = rows[i];
        if row.op_idx < from || row.op_idx - from > u32::MAX - to {
            assert(!can_move(rows@[i as int].op_idx, from, to));
            return None;
        }
        row.op_idx = row.op_idx - from + to;
        moved.push(row);
        i += 1;
    }
    assert(moved@ =~= moved_debug_vars(rows@, from, to));
    Some(moved)
}

pub(crate) fn move_inline_calls(rows: &Vec<DebugSourceInlineCall>, from: u32, to: u32) -> (res: Option<
    Vec<DebugSourceInlineCall>,
>)
    ensures
        match res {
            Some(moved) => moved@ == moved_inline_calls(rows@, from, to),
            None => exists|i: int|
                0 <= i < rows@.len() && !can_move((#[trigger] rows@[i]).op_idx, from, to),
        },
{
    let mut moved: Vec<DebugSourceInlineCall> = Vec::new();
    let mut i: usize = 0;
    while i < rows.len()
        invariant
            i <= rows@.len(),
            moved@ =~= moved_inline_calls(rows@, from, to).take(i as int),
        decreases rows@.len() - i,
    {
        let mut row = rows[i];
        if row.op_idx < from || row.op_idx - from > u32::MAX - to {
            assert(!can_move(rows@[i as int].op_idx, from, to));
            return None;
        }
        row.op_idx = row.op_idx - from + to;
        moved.push(row);
        i += 1;
    }
    assert(moved@ =~= moved_inline_calls(rows@, from, to));
    Some(moved)
}

pub(crate) fn move_call_frames(rows: &Vec<DebugSourceCallFrame>, from: u32, to: u32) -> (res: Option<
    Vec<DebugSourceCallFrame>,
>)
    ensures
        match res {
            Some(moved) => moved@ == moved_call_frames(rows@, from, to),
            None => exists|i: int|
                0 <= i < rows@.len() && !(can_move((#[trigger] rows@[i]).op_start, from, to)
                    && can_move(rows@[i].op_end, from, to)),
        },
{
    let mut moved: Vec<DebugSourceCallFrame> = Vec::new();
    let mut i: usize = 0;
    while i < rows.len()
        invariant
            i <= rows@.len(),
            moved@ =~= moved_call_frames(rows@, from, to).take(i as int),
        decreases rows@.len() - i,
    {
        let mut row = rows[i];
        if row.op_start < from || row.op_start - from > u32::MAX - to || row.op_end < from
            || row.op_end - from > u32::MAX - to {
            assert(!(can_move(rows@[i as int].op_start, from, to) && can_move(
                rows@[i as int].op_end,
                from,
                to,
            )));
            return None;
        }
        row.op_start = row.op_start - from + to;
        row.op_end = row.op_end - from + to;
        moved.push(row);
        i += 1;
    }
    assert(moved@ =~= moved_call_frames(rows@, from, to));
    Some(moved)
}

// RUNS OF BLOCKS
// ================================================================================================

/// The unpadded operations of a use of a block.
pub open spec fn use_ops(b: BuilderModel, u: MastNodeUse) -> Seq<Operation> {
    match b.nodes[u.node_ref.0 as int].kind {
        PendingKind::BasicBlock(batches) => raw_of(batches),
        _ => Seq::empty(),
    }
}

/// The unpadded operations of the first `k` uses, one behind the other.
pub open spec fn run_ops(b: BuilderModel, run: Seq<MastNodeUse>, k: nat) -> Seq<Operation>
    decreases k,
{
    if k == 0 {
        Seq::empty()
    } else {
        run_ops(b, run, (k - 1) as nat) + use_ops(b, run[k - 1])
    }
}

/// The rows of the first `k` uses, each moved behind the operations of those before it.
pub open spec fn run_rows(b: BuilderModel, run: Seq<MastNodeUse>, k: nat) -> RowsModel
    decreases k,
{
    if k == 0 {
        RowsModel {
            asm_ops: Seq::empty(),
            debug_vars: Seq::empty(),
            inline_calls: Seq::empty(),
            call_frames: Seq::empty(),
        }
    } else {
        let before = run_rows(b, run, (k - 1) as nat);
        let node = b.graph.nodes[run[k - 1].source_ref.0 as int];
        let at = run_ops(b, run, (k - 1) as nat).len() as u32;
        RowsModel {
            asm_ops: before.asm_ops + moved_asm_ops(node.asm_ops, 0, at),
            debug_vars: before.debug_vars + moved_debug_vars(node.debug_vars, 0, at),
            inline_calls: before.inline_calls + moved_inline_calls(node.inline_calls, 0, at),
            call_frames: before.call_frames + moved_call_frames(
                node.call_frames,
                node.op_start,
                at,
            ),
        }
    }
}

/// A block is merged with its neighbours.
pub open spec fn merges(b: BuilderModel, u: MastNodeUse) -> bool {
    match b.nodes[u.node_ref.0 as int].kind {
        PendingKind::BasicBlock(batches) => !b.roots.contains(u.node_ref) || batches.len()
            < PROCEDURE_INLINING_THRESHOLD,
        _ => false,
    }
}

/// A part of a sequence of blocks after merging.
pub ghost enum Segment {
    /// A block that stays as it is.
    Kept(MastNodeUse),
    /// Blocks that become one.
    Merged(Seq<MastNodeUse>),
}

/// The first `k` blocks in segments, and the run that is still open. A block that stays closes the
/// run before it, if the run has operations.
pub open spec fn segments_upto(b: BuilderModel, uses: Seq<MastNodeUse>, k: nat) -> (
    Seq<Segment>,
    Seq<MastNodeUse>,
)
    decreases k,
{
    if k == 0 {
        (Seq::empty(), Seq::empty())
    } else {
        let (done, run) = segments_upto(b, uses, (k - 1) as nat);
        let u = uses[k - 1];
        if merges(b, u) {
            (done, run.push(u))
        } else if run_ops(b, run, run.len()).len() > 0 {
            (done.push(Segment::Merged(run)).push(Segment::Kept(u)), Seq::empty())
        } else {
            (done.push(Segment::Kept(u)), run)
        }
    }
}

/// A sequence of blocks in segments.
pub open spec fn segments(b: BuilderModel, uses: Seq<MastNodeUse>) -> Seq<Segment> {
    let (done, run) = segments_upto(b, uses, uses.len());
    if run_ops(b, run, run.len()).len() > 0 {
        done.push(Segment::Merged(run))
    } else {
        done
    }
}

/// The functions at the first `k` uses of a run.
pub open spec fn run_functions(g: GraphModel, run: Seq<MastNodeUse>, k: nat) -> Seq<u32>
    decreases k,
{
    if k == 0 {
        Seq::empty()
    } else {
        run_functions(g, run, (k - 1) as nat) + functions_of(
            g.functions,
            run[k - 1].source_ref.0,
            g.functions.len(),
        )
    }
}

/// The states when a run becomes one block: before it, when the block was recorded, and when its
/// parts were.
pub ghost struct MergeSteps {
    pub at: BuilderModel,
    pub mid: BuilderModel,
    pub end: BuilderModel,
}

/// Each use of a run has an occurrence behind those that were there: that of its block, moved along
/// with its operations.
pub open spec fn occurrences_moved(w: MergeSteps, run: Seq<MastNodeUse>, exec: u32) -> bool {
    &&& w.end.nodes == w.mid.nodes
    &&& w.end.roots == w.mid.roots
    &&& w.end.decorated == w.mid.decorated
    &&& appended(w.mid.graph, w.end.graph)
    &&& w.end.graph.nodes.len() == w.mid.graph.nodes.len() + run.len()
    &&& forall|i: int|
        0 <= i < run.len() ==> {
            let s = w.mid.graph.nodes.len() + i;
            &&& !w.end.graph.boundary[s]
            &&& w.end.graph.nodes[s] == moved_occurrence(
                w.mid.graph.nodes[(#[trigger] run[i]).source_ref.0 as int],
                exec,
                run_ops(w.at, run, i as nat).len() as u32,
            )
        }
}

/// A run of blocks became `u`: a block of all their operations was recorded, with all their rows
/// and functions, and then an occurrence for the range of each of them.
#[verifier::opaque]
pub open spec fn run_merged(w: MergeSteps, run: Seq<MastNodeUse>, u: MastNodeUse) -> bool {
    &&& recorded(
        w.at,
        w.mid,
        block_draft(
            batched(run_ops(w.at, run, run.len())),
            run_rows(w.at, run, run.len()),
            run_functions(w.at.graph, run, run.len()),
        ),
        Seq::empty(),
        u,
    )
    &&& occurrences_moved(w, run, u.node_ref.0)
}

/// What became of one segment.
pub open spec fn segment_done(w: MergeSteps, part: Segment, u: MastNodeUse) -> bool {
    match part {
        Segment::Kept(kept) => u == kept && w.end == w.at,
        Segment::Merged(run) => run_merged(w, run, u),
    }
}

/// What became of segments, one after another.
pub open spec fn segments_done(
    steps: Seq<MergeSteps>,
    parts: Seq<Segment>,
    result: Seq<MastNodeUse>,
) -> bool {
    &&& steps.len() == parts.len()
    &&& result.len() == parts.len()
    &&& forall|i: int|
        0 <= i < steps.len() ==> segment_done(#[trigger] steps[i], parts[i], result[i])
    &&& forall|i: int| 0 < i < steps.len() ==> (#[trigger] steps[i]).at == steps[i - 1].end
}

/// `result` holds one use for each segment: runs were merged one after another.
#[verifier::opaque]
pub open spec fn segmented(
    b: BuilderModel,
    after: BuilderModel,
    parts: Seq<Segment>,
    result: Seq<MastNodeUse>,
) -> bool {
    exists|steps: Seq<MergeSteps>| #[trigger]
        segments_done(steps, parts, result) && if steps.len() == 0 {
            after == b
        } else {
            steps[0].at == b && steps.last().end == after
        }
}

/// Uses of blocks.
pub open spec fn block_uses(b: BuilderModel, uses: Seq<MastNodeUse>) -> bool {
    forall|i: int|
        0 <= i < uses.len() ==> b.has_use(#[trigger] uses[i])
            && b.nodes[uses[i].node_ref.0 as int].kind is BasicBlock
}

// LEMMAS
// ================================================================================================

proof fn lemma_raw_below_wf(batch: BatchModel, g: nat)
    requires
        batch.wf(),
        g <= 8,
    ensures
        forall|i: int|
            0 <= i < raw_below(batch.ops, batch.indptr, batch.padding, g).len() ==> (
            #[trigger] raw_below(batch.ops, batch.indptr, batch.padding, g)[i]).wf(),
    decreases g,
{
    if g > 0 {
        lemma_raw_below_wf(batch, (g - 1) as nat);
        let a = raw_below(batch.ops, batch.indptr, batch.padding, (g - 1) as nat);
        let r = raw_group(batch.ops, batch.indptr, batch.padding, g - 1);
        assert(batch.indptr[g - 1] <= batch.indptr[g as int] <= batch.indptr[8]);
        assert forall|i: int| 0 <= i < (a + r).len() implies (#[trigger] (a + r)[i]).wf() by {
            if i < a.len() {
                assert((a + r)[i] == a[i]);
            } else {
                let k = i - a.len();
                assert((a + r)[i] == r[k]);
                assert(r[k] == batch.ops[batch.indptr[g - 1] + k]);
            }
        }
    }
}

/// The operations of well-formed batches are well formed.
pub proof fn lemma_raw_of_wf(batches: Seq<BatchModel>)
    requires
        batches_wf(batches),
    ensures
        forall|i: int| 0 <= i < raw_of(batches).len() ==> (#[trigger] raw_of(batches)[i]).wf(),
    decreases batches.len(),
{
    if batches.len() > 0 {
        let front = batches.drop_last();
        let last = batches[batches.len() - 1];
        assert(last.wf());
        assert forall|i: int| 0 <= i < front.len() implies (#[trigger] front[i]).wf() by {
            assert(front[i] == batches[i]);
        }
        lemma_raw_of_wf(front);
        lemma_raw_below_wf(last, 8);
        let a = raw_of(front);
        let r = last.raw_ops();
        assert forall|i: int| 0 <= i < (a + r).len() implies (#[trigger] (a + r)[i]).wf() by {
            if i < a.len() {
                assert((a + r)[i] == a[i]);
            } else {
                assert((a + r)[i] == r[i - a.len()]);
            }
        }
    }
}

/// Adding occurrences keeps everything else.
proof fn lemma_appended_extends(before: BuilderModel, after: BuilderModel)
    requires
        before.wf(),
        after.graph.wf(),
        appended(before.graph, after.graph),
        after.nodes == before.nodes,
        after.roots == before.roots,
        after.decorated == before.decorated,
        after.tables == before.tables,
        after.imports == before.imports,
    ensures
        after.wf(),
        extends(before, after),
{
    lemma_entries_kept(before, after);
    assert forall|s: int| 0 <= s < before.graph.nodes.len() implies after.graph.nodes[s]
        == before.graph.nodes[s] && after.graph.boundary[s] == before.graph.boundary[s] by {
        assert(after.graph.nodes.take(before.graph.nodes.len() as int)[s]
            == before.graph.nodes[s]);
        assert(after.graph.boundary.take(before.graph.boundary.len() as int)[s]
            == before.graph.boundary[s]);
    }
    assert forall|s: int| 0 <= s < before.graph.nodes.len() implies after.graph.nodes[s].exec_node
        == (#[trigger] before.graph.nodes[s]).exec_node && (is_settled(before, s)
        ==> after.graph.nodes[s] == before.graph.nodes[s] && is_settled(after, s)) by {
        assert(after.graph.nodes[s] == before.graph.nodes[s]);
    }
}

// ENSURING BLOCKS
// ================================================================================================

/// The draft of a block.
pub open spec fn block_draft(
    batches: Seq<BatchModel>,
    rows: RowsModel,
    functions: Seq<u32>,
) -> DraftModel {
    DraftModel {
        digest: block_digest(batches),
        kind: PendingKind::BasicBlock(batches),
        child_refs: Seq::empty(),
        asm_ops: rows.asm_ops,
        debug_vars: rows.debug_vars,
        inline_calls: rows.inline_calls,
        call_frames: rows.call_frames,
        functions,
    }
}

/// Rows collected for a block.
pub struct BlockRows {
    pub asm_ops: Vec<DebugSourceAsmOp>,
    pub debug_vars: Vec<DebugSourceVar>,
    pub inline_calls: Vec<DebugSourceInlineCall>,
    pub call_frames: Vec<DebugSourceCallFrame>,
}

impl BlockRows {
    pub open spec fn view(&self) -> RowsModel {
        RowsModel {
            asm_ops: self.asm_ops@,
            debug_vars: self.debug_vars@,
            inline_calls: self.inline_calls@,
            call_frames: self.call_frames@,
        }
    }

    pub fn new() -> (rows: BlockRows)
        ensures
            rows@ == (RowsModel {
                asm_ops: Seq::empty(),
                debug_vars: Seq::empty(),
                inline_calls: Seq::empty(),
                call_frames: Seq::empty(),
            }),
    {
        let rows = BlockRows {
            asm_ops: Vec::new(),
            debug_vars: Vec::new(),
            inline_calls: Vec::new(),
            call_frames: Vec::new(),
        };
        assert(rows@.asm_ops =~= Seq::empty());
        assert(rows@.debug_vars =~= Seq::empty());
        assert(rows@.inline_calls =~= Seq::empty());
        assert(rows@.call_frames =~= Seq::empty());
        rows
    }
}

impl MastForestBuilder {
    /// Adds a basic block with its rows and call frames; the given functions move to its
    /// occurrence.
    ///
    /// Refuses a block without operations.
    pub fn ensure_block_use_with_call_frames(
        &mut self,
        operations: &Vec<Operation>,
        rows: BlockRows,
        functions: Vec<u32>,
    ) -> (res: Result<MastNodeUse, BuildError>)
        requires
            old(self)@.wf(),
            forall|i: int| 0 <= i < operations@.len() ==> (#[trigger] operations@[i]).wf(),
        ensures
            final(self).registry == old(self).registry,
            operations@.len() == 0 ==> res == Err::<MastNodeUse, BuildError>(
                BuildError::EmptyBasicBlock,
            ),
            operations@.len() > u32::MAX ==> res == Err::<MastNodeUse, BuildError>(
                BuildError::TooManyOperations,
            ),
            match res {
                Ok(u) => {
                    &&& recorded(
                        old(self)@,
                        final(self)@,
                        block_draft(batched(operations@), rows@, functions@),
                        Seq::empty(),
                        u,
                    )
                    &&& final(self)@.wf()
                    &&& extends(old(self)@, final(self)@)
                    &&& final(self)@.has_use(u)
                    &&& final(self)@.roots == old(self)@.roots
                    &&& is_settled(final(self)@, u.source_ref.0 as int)
                    &&& final(self)@.graph.nodes[u.source_ref.0 as int] == (SourceModel {
                        exec_node: u.node_ref.0,
                        children: Seq::empty(),
                        op_start: 0,
                        op_end: operations@.len() as u32,
                        asm_ops: rows@.asm_ops,
                        debug_vars: rows@.debug_vars,
                        inline_calls: rows@.inline_calls,
                        call_frames: rows@.call_frames,
                    })
                    &&& blocks_have_ops(old(self)@.nodes, final(self)@.nodes)
                },
                Err(e) => if operations@.len() == 0 {
                    e == BuildError::EmptyBasicBlock && final(self)@ == old(self)@
                } else if operations@.len() > u32::MAX {
                    e == BuildError::TooManyOperations && final(self)@ == old(self)@
                } else {
                    spent(final(self)@, e) && record_failed(
                        old(self)@,
                        final(self)@,
                        block_draft(
                            batched(operations@),
                            rows@,
                            functions@,
                        ),
                        e,
                    )
                },
            },
    {
        if operations.len() == 0 {
            return Err(BuildError::EmptyBasicBlock);
        }
        if operations.len() > u32::MAX as usize {
            return Err(BuildError::TooManyOperations);
        }
        let op_batches = batch_operations(operations);
        let digest = digest_of_batches(&op_batches);
        let ghost batches = models(op_batches@);
        proof {
            assert forall|i: int| 0 <= i < batches.len() implies (#[trigger] batches[i]).wf() by {
                assert(op_batches@[i]@.wf());
            }
        }
        let draft = PendingMastNodeDraft {
            digest,
            kind: PendingMastNodeKind::BasicBlock { op_batches },
            child_refs: Vec::new(),
            asm_ops: rows.asm_ops,
            debug_vars: rows.debug_vars,
            inline_calls: rows.inline_calls,
            call_frames: rows.call_frames,
            functions,
        };
        let none: Vec<u32> = Vec::new();
        proof {
            assert(draft@.child_refs =~= Seq::empty());
            assert(none@ =~= Seq::empty());
            assert(draft@ == block_draft(batches, rows@, functions@));
            assert(raw_of(batches) == operations@);
            assert(batches == batched(operations@));
        }
        let ghost b = self@;
        let ghost model = draft@;
        let res = self.intern_pending_node_use(&draft, &none);
        proof {
            if res is Ok {
                lemma_block_has_ops(b.nodes, model);
            }
        }
        res
    }

    /// Adds a basic block with its rows.
    pub fn ensure_block_use(
        &mut self,
        operations: &Vec<Operation>,
        asm_ops: Vec<DebugSourceAsmOp>,
        debug_vars: Vec<DebugSourceVar>,
        inline_calls: Vec<DebugSourceInlineCall>,
        functions: Vec<u32>,
    ) -> (res: Result<MastNodeUse, BuildError>)
        requires
            old(self)@.wf(),
            forall|i: int| 0 <= i < operations@.len() ==> (#[trigger] operations@[i]).wf(),
        ensures
            final(self).registry == old(self).registry,
            operations@.len() == 0 ==> res == Err::<MastNodeUse, BuildError>(
                BuildError::EmptyBasicBlock,
            ),
            match res {
                Ok(u) => {
                    let rows = RowsModel {
                        asm_ops: asm_ops@,
                        debug_vars: debug_vars@,
                        inline_calls: inline_calls@,
                        call_frames: Seq::empty(),
                    };
                    &&& recorded(
                        old(self)@,
                        final(self)@,
                        block_draft(batched(operations@), rows, functions@),
                        Seq::empty(),
                        u,
                    )
                    &&& final(self)@.wf()
                    &&& extends(old(self)@, final(self)@)
                    &&& final(self)@.has_use(u)
                    &&& is_settled(final(self)@, u.source_ref.0 as int)
                },
                Err(e) => if operations@.len() == 0 {
                    e == BuildError::EmptyBasicBlock && final(self)@ == old(self)@
                } else if operations@.len() > u32::MAX {
                    e == BuildError::TooManyOperations && final(self)@ == old(self)@
                } else {
                    spent(final(self)@, e) && record_failed(
                        old(self)@,
                        final(self)@,
                        block_draft(
                            batched(operations@),
                            RowsModel {
                            asm_ops: asm_ops@,
                            debug_vars: debug_vars@,
                            inline_calls: inline_calls@,
                            call_frames: Seq::empty(),
                        },
                            functions@,
                        ),
                        e,
                    )
                },
            },
    {
        let rows = BlockRows { asm_ops, debug_vars, inline_calls, call_frames: Vec::new() };
        assert(rows@.call_frames =~= Seq::empty());
        self.ensure_block_use_with_call_frames(operations, rows, functions)
    }

    /// Records, for each of the occurrences that were merged, where its operations went. These
    /// records are not selectable as occurrences of the merged block.
    fn record_merged_source_occurrences(
        &mut self,
        merged: MastNodeRef,
        occurrences: &Vec<(u32, u32)>,
    ) -> (res: Result<(), BuildError>)
        requires
            old(self)@.wf(),
            merged.0 < old(self)@.nodes.len(),
            forall|i: int|
                0 <= i < occurrences@.len() ==> (#[trigger] occurrences@[i]).0
                    < old(self)@.graph.nodes.len(),
        ensures
            final(self).registry == old(self).registry,
            match res {
                Ok(_) => {
                    &&& final(self)@.wf()
                    &&& extends(old(self)@, final(self)@)
                    &&& appended(old(self)@.graph, final(self)@.graph)
                    &&& final(self)@.nodes == old(self)@.nodes
                    &&& final(self)@.roots == old(self)@.roots
                    &&& final(self)@.decorated == old(self)@.decorated
                    &&& final(self)@.graph.nodes.len() == old(self)@.graph.nodes.len()
                        + occurrences@.len()
                    &&& forall|i: int|
                        old(self)@.graph.nodes.len() <= i < final(self)@.graph.nodes.len()
                            ==> !#[trigger] final(self)@.graph.boundary[i]
                    &&& forall|i: int|
                        0 <= i < occurrences@.len() ==> #[trigger] final(self)@.graph.nodes[old(
                            self,
                        )@.graph.nodes.len() + i] == moved_occurrence(
                            old(self)@.graph.nodes[occurrences@[i].0 as int],
                            merged.0,
                            occurrences@[i].1,
                        )
                },
                Err(e) => final(self)@.nodes == old(self)@.nodes && old(self)@.graph.nodes.len()
                    <= final(self)@.graph.nodes.len() && (spent(
                    final(self)@,
                    e,
                ) || e == BuildError::RowsOutOfRange && exists|i: int|
                    0 <= i < occurrences@.len() && !movable(
                        final(self)@.graph.nodes[(#[trigger] occurrences@[i]).0 as int],
                        occurrences@[i].1,
                    )) && (e == BuildError::RowsOutOfRange || e == BuildError::TooManySources && old(
                    self,
                )@.graph.nodes.len() + occurrences@.len() > u32::MAX),
            },
    {
        let ghost before = self@;
        let ghost n = before.graph.nodes.len() as int;
        proof {
            assert(self@.graph.nodes.take(n) =~= before.graph.nodes);
            assert(self@.graph.boundary.take(n) =~= before.graph.boundary);
            lemma_extends_refl(before);
        }
        let mut i: usize = 0;
        let none: Vec<u32> = Vec::new();
        while i < occurrences.len()
            invariant
                i <= occurrences@.len(),
                before.wf(),
                n == before.graph.nodes.len(),
                merged.0 < before.nodes.len(),
                none@.len() == 0,
                old(self)@ == before,
                forall|i: int|
                    0 <= i < occurrences@.len() ==> (#[trigger] occurrences@[i]).0 < n,
                self.registry == old(self).registry,
                self@.nodes == before.nodes,
                self@.roots == before.roots,
                self@.decorated == before.decorated,
                self@.graph.wf(),
                appended(before.graph, self@.graph),
                self@.graph.nodes.len() == n + i,
                forall|k: int| n <= k < n + i ==> !#[trigger] self@.graph.boundary[k],
                forall|k: int|
                    0 <= k < i ==> #[trigger] self@.graph.nodes[n + k] == moved_occurrence(
                        before.graph.nodes[occurrences@[k].0 as int],
                        merged.0,
                        occurrences@[k].1,
                    ),
            decreases occurrences@.len() - i,
        {
            let ghost now = self@.graph;
            let source: u32 = occurrences[i].0;
            let to: u32 = occurrences[i].1;
            assert(occurrences@[i as int].0 < n);
            proof {
                assert(now.nodes.take(n)[source as int] == before.graph.nodes[source as int]);
                assert(now.nodes[source as int] == self.graph.nodes@[source as int]@);
                assert(range_ok(now.nodes[source as int]));
            }
            let node = &self.graph.nodes[source as usize];
            let from: u32 = node.op_start;
            proof {
                lemma_movable(now.nodes[source as int], to);
            }
            if node.op_end - from > u32::MAX - to {
                return Err(BuildError::RowsOutOfRange);
            }
            let asm_ops = match move_asm_ops(&node.asm_ops, from, to) {
                Some(rows) => rows,
                None => {
                    return Err(BuildError::RowsOutOfRange);
                },
            };
            let debug_vars = match move_debug_vars(&node.debug_vars, from, to) {
                Some(rows) => rows,
                None => {
                    return Err(BuildError::RowsOutOfRange);
                },
            };
            let inline_calls = match move_inline_calls(&node.inline_calls, from, to) {
                Some(rows) => rows,
                None => {
                    return Err(BuildError::RowsOutOfRange);
                },
            };
            let call_frames = match move_call_frames(&node.call_frames, from, to) {
                Some(rows) => rows,
                None => {
                    return Err(BuildError::RowsOutOfRange);
                },
            };
            let moved = SourceNode {
                exec_node: merged.0,
                children: copy_vec(&node.children),
                op_start: to,
                op_end: node.op_end - from + to,
                asm_ops,
                debug_vars,
                inline_calls,
                call_frames,
            };
            let ghost model = moved@;
            proof {
                assert(model == moved_occurrence(
                    before.graph.nodes[source as int],
                    merged.0,
                    to,
                ));
                assert forall|j: int| 0 <= j < model.children.len() implies (
                #[trigger] model.children[j]) < now.nodes.len() by {
                    assert(now.nodes[source as int].children[j] < now.nodes.len());
                }
            }
            if let Err(e) = self.graph.push(moved, &none, false, false) {
                return Err(e);
            }
            proof {
                let g = self@.graph;
                assert(g.functions =~= now.functions);
                assert forall|k: int| 0 <= k < n implies g.nodes[k] == before.graph.nodes[k]
                    && g.boundary[k] == before.graph.boundary[k] by {
                    assert(now.nodes.take(n)[k] == before.graph.nodes[k]);
                    assert(now.boundary.take(n)[k] == before.graph.boundary[k]);
                }
                assert(g.nodes.take(n) =~= before.graph.nodes);
                assert(g.boundary.take(n) =~= before.graph.boundary);
                assert forall|k: int| n <= k < n + i + 1 implies !#[trigger] g.boundary[k] by {
                    if k < n + i {
                        assert(g.boundary[k] == now.boundary[k]);
                    }
                }
                assert forall|k: int| 0 <= k < i + 1 implies #[trigger] g.nodes[n + k]
                    == moved_occurrence(
                    before.graph.nodes[occurrences@[k].0 as int],
                    merged.0,
                    occurrences@[k].1,
                ) by {
                    if k < i {
                        assert(g.nodes[n + k] == now.nodes[n + k]);
                    }
                }
            }
            i += 1;
        }
        proof {
            lemma_appended_extends(before, self@);
        }
        Ok(())
    }
}

/// An occurrence of a block after its operations went to offset `to` of another.
pub open spec fn moved_occurrence(node: SourceModel, exec: u32, to: u32) -> SourceModel {
    let from = node.op_start;
    SourceModel {
        exec_node: exec,
        children: node.children,
        op_start: to,
        op_end: (node.op_end - from + to) as u32,
        asm_ops: moved_asm_ops(node.asm_ops, from, to),
        debug_vars: moved_debug_vars(node.debug_vars, from, to),
        inline_calls: moved_inline_calls(node.inline_calls, from, to),
        call_frames: moved_call_frames(node.call_frames, from, to),
    }
}

// MERGING
// ================================================================================================

/// Blocks that are about to become one.
struct Run {
    ops: Vec<Operation>,
    rows: BlockRows,
    functions: Vec<u32>,
    /// The occurrences of the blocks, and where their operations start.
    occurrences: Vec<(u32, u32)>,
}

/// `run` holds what the uses in `uses` hold.
spec fn run_inv(now: BuilderModel, run: Run, uses: Seq<MastNodeUse>) -> bool {
    &&& run.ops@ == run_ops(now, uses, uses.len())
    &&& forall|i: int| 0 <= i < run.ops@.len() ==> (#[trigger] run.ops@[i]).wf()
    &&& run.rows@ == run_rows(now, uses, uses.len())
    &&& run.functions@ == run_functions(now.graph, uses, uses.len())
    &&& run.occurrences@.len() == uses.len()
    &&& forall|i: int| 0 <= i < uses.len() ==> occurrence_noted(now, run, uses, i)
}

/// The occurrence of use `i`, and where its operations start.
spec fn occurrence_noted(now: BuilderModel, run: Run, uses: Seq<MastNodeUse>, i: int) -> bool {
    let at = run_ops(now, uses, i as nat).len();
    &&& run.occurrences@[i] == (uses[i].source_ref.0, at as u32)
    &&& uses[i].source_ref.0 < now.graph.nodes.len()
    &&& at <= u32::MAX
    &&& at <= run.ops@.len()
}

proof fn lemma_run_prefix(b: BuilderModel, uses: Seq<MastNodeUse>, u: MastNodeUse, k: nat)
    requires
        k <= uses.len(),
    ensures
        run_ops(b, uses.push(u), k) == run_ops(b, uses, k),
        run_rows(b, uses.push(u), k) == run_rows(b, uses, k),
        run_functions(b.graph, uses.push(u), k) == run_functions(b.graph, uses, k),
    decreases k,
{
    if k > 0 {
        lemma_run_prefix(b, uses, u, (k - 1) as nat);
        assert(uses.push(u)[k - 1] == uses[k - 1]);
    }
}

fn append_rows(rows: &mut BlockRows, more: BlockRows)
    ensures
        final(rows)@ == (RowsModel {
            asm_ops: old(rows)@.asm_ops + more@.asm_ops,
            debug_vars: old(rows)@.debug_vars + more@.debug_vars,
            inline_calls: old(rows)@.inline_calls + more@.inline_calls,
            call_frames: old(rows)@.call_frames + more@.call_frames,
        }),
{
    let mut asm_ops = more.asm_ops;
    let mut debug_vars = more.debug_vars;
    let mut inline_calls = more.inline_calls;
    let mut call_frames = more.call_frames;
    rows.asm_ops.append(&mut asm_ops);
    rows.debug_vars.append(&mut debug_vars);
    rows.inline_calls.append(&mut inline_calls);
    rows.call_frames.append(&mut call_frames);
}

/// Where an occurrence can be moved, all its rows can be.
proof fn lemma_movable(node: SourceModel, to: u32)
    ensures
        movable(node, to) ==> {
            &&& forall|i: int|
                0 <= i < node.asm_ops.len() ==> can_move(
                    (#[trigger] node.asm_ops[i]).op_idx,
                    node.op_start,
                    to,
                ) && can_move(node.asm_ops[i].op_idx, 0, to)
            &&& forall|i: int|
                0 <= i < node.debug_vars.len() ==> can_move(
                    (#[trigger] node.debug_vars[i]).op_idx,
                    node.op_start,
                    to,
                ) && can_move(node.debug_vars[i].op_idx, 0, to)
            &&& forall|i: int|
                0 <= i < node.inline_calls.len() ==> can_move(
                    (#[trigger] node.inline_calls[i]).op_idx,
                    node.op_start,
                    to,
                ) && can_move(node.inline_calls[i].op_idx, 0, to)
            &&& forall|i: int|
                0 <= i < node.call_frames.len() ==> can_move(
                    (#[trigger] node.call_frames[i]).op_start,
                    node.op_start,
                    to,
                ) && can_move(node.call_frames[i].op_end, node.op_start, to)
        },
{
}

/// Blocks keep their operations.
proof fn lemma_run_same(b: BuilderModel, after: BuilderModel, uses: Seq<MastNodeUse>, k: nat)
    requires
        k <= uses.len(),
        code_kept(b.nodes, after.nodes),
        block_uses(b, uses),
    ensures
        run_ops(after, uses, k) == run_ops(b, uses, k),
    decreases k,
{
    if k > 0 {
        lemma_run_same(b, after, uses, (k - 1) as nat);
        assert(b.has_use(uses[k - 1]));
        assert(b.nodes[uses[k - 1].node_ref.0 as int].kind is BasicBlock);
        assert(after.nodes[uses[k - 1].node_ref.0 as int]
            == b.nodes[uses[k - 1].node_ref.0 as int]);
    }
}

proof fn lemma_code_trans(a: Seq<PendingModel>, b: Seq<PendingModel>, c: Seq<PendingModel>)
    requires
        code_kept(a, b),
        code_kept(b, c),
    ensures
        code_kept(a, c),
{
    assert forall|r: int| 0 <= r < a.len() implies (#[trigger] a[r]).kind is External || c[r]
        == a[r] by {
        assert(a[r].kind is External || b[r] == a[r]);
        assert(b[r].kind is External || c[r] == b[r]);
    }
}

/// A block with operations that is interned makes no empty block known.
proof fn lemma_block_has_ops(nodes: Seq<PendingModel>, draft: DraftModel)
    requires
        draft.kind matches PendingKind::BasicBlock(batches) && raw_of(batches).len() > 0,
    ensures
        blocks_have_ops(nodes, interned_nodes(nodes, draft, draft_key(nodes, draft))),
{
    crate::builder::lemma_find_key(nodes, draft_key(nodes, draft), nodes.len());
}

/// What becomes known in steps has operations.
proof fn lemma_have_ops_trans(a: Seq<PendingModel>, b: Seq<PendingModel>, c: Seq<PendingModel>)
    requires
        code_kept(a, b),
        code_kept(b, c),
        blocks_have_ops(a, b),
        blocks_have_ops(b, c),
    ensures
        code_kept(a, c),
        blocks_have_ops(a, c),
{
    assert forall|r: int| 0 <= r < a.len() implies (#[trigger] a[r]).kind is External || c[r]
        == a[r] by {
        assert(a[r].kind is External || b[r] == a[r]);
        assert(b[r].kind is External || c[r] == b[r]);
    }
    assert forall|r: int| 0 <= r < a.len() && (#[trigger] a[r]).kind is External implies (
    c[r].kind matches PendingKind::BasicBlock(batches) ==> raw_of(batches).len() > 0) by {
        assert(b[r].kind is External || c[r] == b[r]);
    }
}

proof fn lemma_extends_code(b: BuilderModel, after: BuilderModel)
    requires
        extends(b, after),
    ensures
        code_kept(b.nodes, after.nodes),
{
    assert forall|r: int| 0 <= r < b.nodes.len() implies (#[trigger] b.nodes[r]).kind is External
        || after.nodes[r] == b.nodes[r] by {
        assert(after.nodes[r].key == b.nodes[r].key);
    }
}

/// The operations of uses behind others are among those of all.
proof fn lemma_stretch_ops(
    b: BuilderModel,
    uses: Seq<MastNodeUse>,
    front: Seq<MastNodeUse>,
    stretch: Seq<MastNodeUse>,
)
    requires
        (front + stretch).len() <= uses.len(),
        uses.take((front + stretch).len() as int) == front + stretch,
    ensures
        total_ops(b, stretch) <= total_ops(b, uses),
{
    let n = (front + stretch).len();
    lemma_run_concat(b, front, stretch, stretch.len());
    lemma_run_take(b, uses, n, n);
    lemma_run_grows(b, uses, n, uses.len());
}

proof fn lemma_run_concat(
    b: BuilderModel,
    front: Seq<MastNodeUse>,
    stretch: Seq<MastNodeUse>,
    k: nat,
)
    requires
        k <= stretch.len(),
    ensures
        run_ops(b, front + stretch, front.len() + k).len() >= run_ops(b, stretch, k).len(),
    decreases k,
{
    if k > 0 {
        lemma_run_concat(b, front, stretch, (k - 1) as nat);
        assert((front + stretch)[front.len() + k - 1] == stretch[k - 1]);
    }
}

proof fn lemma_run_take(b: BuilderModel, uses: Seq<MastNodeUse>, n: nat, k: nat)
    requires
        k <= n <= uses.len(),
    ensures
        run_ops(b, uses.take(n as int), k) == run_ops(b, uses, k),
    decreases k,
{
    if k > 0 {
        lemma_run_take(b, uses, n, (k - 1) as nat);
        assert(uses.take(n as int)[k - 1] == uses[k - 1]);
    }
}

proof fn lemma_spent_fails(after: BuilderModel, uses: Seq<MastNodeUse>, e: BuildError)
    requires
        spent(after, e) || e == BuildError::TooManyOperations && total_ops(after, uses) > u32::MAX,
    ensures
        merge_failed(after, uses, e),
{
    reveal(merge_failed);
}

proof fn lemma_unmovable_fails(after: BuilderModel, uses: Seq<MastNodeUse>, i: int, to: nat)
    requires
        0 <= i < uses.len(),
        to <= total_ops(after, uses),
        to > u32::MAX || is_unmovable(after.graph, uses[i], to as u32),
    ensures
        merge_failed(after, uses, BuildError::RowsOutOfRange),
{
    reveal(merge_failed);
    if total_ops(after, uses) <= u32::MAX {
        assert(is_unmovable(after.graph, uses[i], to as u32));
    }
}

/// What fails for some of the uses fails for all.
proof fn lemma_failed_grows(
    after: BuilderModel,
    some: Seq<MastNodeUse>,
    uses: Seq<MastNodeUse>,
    e: BuildError,
)
    requires
        merge_failed(after, some, e),
        total_ops(after, some) <= total_ops(after, uses),
        forall|k: int| 0 <= k < some.len() ==> uses.contains(#[trigger] some[k]),
    ensures
        merge_failed(after, uses, e),
{
    reveal(merge_failed);
    let total = total_ops(after, some);
    if has_unmovable(after.graph, some, total) {
        let (i, to) = choose|i: int, to: u32|
            0 <= i < some.len() && to <= total && #[trigger] is_unmovable(
                after.graph,
                some[i],
                to,
            );
        assert(uses.contains(some[i]));
        let q = choose|q: int| 0 <= q < uses.len() && uses[q] == some[i];
        assert(is_unmovable(after.graph, uses[q], to));
    }
}

proof fn lemma_run_grows(b: BuilderModel, uses: Seq<MastNodeUse>, k: nat, n: nat)
    requires
        k <= n,
    ensures
        run_ops(b, uses, k).len() <= run_ops(b, uses, n).len(),
    decreases n - k,
{
    if k < n {
        lemma_run_grows(b, uses, k, (n - 1) as nat);
    }
}

impl MastForestBuilder {
    /// Adds a block to a run.
    fn absorb(&self, run: &mut Run, u: MastNodeUse, Ghost(uses): Ghost<Seq<MastNodeUse>>) -> (res:
        Result<(), BuildError>)
        requires
            self@.wf(),
            self@.has_use(u),
            self@.nodes[u.node_ref.0 as int].kind is BasicBlock,
            self@.graph.functions.len() <= u32::MAX,
            run_inv(self@, *old(run), uses),
        ensures
            res is Ok ==> run_inv(self@, *final(run), uses.push(u)),
            match res {
                Err(e) => e == BuildError::RowsOutOfRange && (old(run).ops@.len() > u32::MAX
                    || !movable(
                    self@.graph.nodes[u.source_ref.0 as int],
                    old(run).ops@.len() as u32,
                )),
                Ok(_) => final(run).ops@.len() == old(run).ops@.len() + use_ops(self@, u).len(),
            },
    {
        let ghost longer = uses.push(u);
        proof {
            lemma_run_prefix(self@, uses, u, uses.len());
            assert(longer[uses.len() as int] == u);
            assert(self@.nodes[u.node_ref.0 as int] == self.nodes@[u.node_ref.0 as int]@);
            assert(node_ok(self@.nodes[u.node_ref.0 as int], self@.nodes.len()));
            assert(self@.graph.nodes[u.source_ref.0 as int]
                == self.graph.nodes@[u.source_ref.0 as int]@);
        }
        let block_ops = match &self.nodes[u.node_ref.0 as usize].kind {
            PendingMastNodeKind::BasicBlock { op_batches } => {
                proof {
                    lemma_raw_of_wf(models(op_batches@));
                }
                raw_operations(op_batches)
            },
            _ => {
                assert(false);
                Vec::new()
            },
        };
        if run.ops.len() > u32::MAX as usize {
            return Err(BuildError::RowsOutOfRange);
        }
        let at: u32 = run.ops.len() as u32;
        proof {
            lemma_movable(self@.graph.nodes[u.source_ref.0 as int], at);
        }
        let node = &self.graph.nodes[u.source_ref.0 as usize];
        let asm_ops = match move_asm_ops(&node.asm_ops, 0, at) {
            Some(rows) => rows,
            None => {
                return Err(BuildError::RowsOutOfRange);
            },
        };
        let debug_vars = match move_debug_vars(&node.debug_vars, 0, at) {
            Some(rows) => rows,
            None => {
                return Err(BuildError::RowsOutOfRange);
            },
        };
        let inline_calls = match move_inline_calls(&node.inline_calls, 0, at) {
            Some(rows) => rows,
            None => {
                return Err(BuildError::RowsOutOfRange);
            },
        };
        let call_frames = match move_call_frames(&node.call_frames, node.op_start, at) {
            Some(rows) => rows,
            None => {
                return Err(BuildError::RowsOutOfRange);
            },
        };
        let ghost noted = *run;
        run.occurrences.push((u.source_ref.0, at));
        let mut functions = self.graph.function_indices_for_source_ref(u.source_ref.0);
        run.functions.append(&mut functions);
        let ghost rows_before = run.rows@;
        append_rows(&mut run.rows, BlockRows { asm_ops, debug_vars, inline_calls, call_frames });
        let ghost ops_before = run.ops@;
        let mut more = block_ops;
        run.ops.append(&mut more);
        proof {
            assert(run.ops@ =~= run_ops(self@, longer, longer.len()));
            assert forall|i: int| 0 <= i < run.ops@.len() implies (#[trigger] run.ops@[i]).wf() by {
                if i < ops_before.len() {
                    assert(run.ops@[i] == ops_before[i]);
                } else {
                    assert(run.ops@[i] == block_ops@[i - ops_before.len()]);
                }
            }
            let want = run_rows(self@, longer, longer.len());
            assert(run.rows@.asm_ops =~= want.asm_ops);
            assert(run.rows@.debug_vars =~= want.debug_vars);
            assert(run.rows@.inline_calls =~= want.inline_calls);
            assert(run.rows@.call_frames =~= want.call_frames);
            assert(run.functions@ =~= run_functions(self@.graph, longer, longer.len()));
            assert forall|i: int| 0 <= i < longer.len() implies occurrence_noted(
                self@,
                *run,
                longer,
                i,
            ) by {
                lemma_run_prefix(self@, uses, u, i as nat);
                if i < uses.len() {
                    assert(occurrence_noted(self@, noted, uses, i));
                    assert(longer[i] == uses[i]);
                }
            }
        }
        Ok(())
    }

    /// Turns a run into one block.
    #[verifier::rlimit(30)]
    fn flush(&mut self, run: Run, Ghost(uses): Ghost<Seq<MastNodeUse>>) -> (res: Result<
        MastNodeUse,
        BuildError,
    >)
        requires
            old(self)@.wf(),
            run_inv(old(self)@, run, uses),
            block_uses(old(self)@, uses),
            run.ops@.len() > 0,
        ensures
            final(self).registry == old(self).registry,
            code_kept(old(self)@.nodes, final(self)@.nodes),
            match res {
                Ok(u) => {
                    &&& final(self)@.wf()
                    &&& extends(old(self)@, final(self)@)
                    &&& final(self)@.has_use(u)
                    &&& final(self)@.roots == old(self)@.roots
                    &&& final(self)@.graph.functions.len() == old(self)@.graph.functions.len()
                    &&& exists|w: MergeSteps| #[trigger]
                        run_merged(w, uses, u) && w.at == old(self)@ && w.end == final(self)@
                    &&& grew_by(old(self)@, final(self)@, 1, 1 + uses.len())
                    &&& blocks_have_ops(old(self)@.nodes, final(self)@.nodes)
                },
                Err(e) => merge_failed(final(self)@, uses, e) && (is_roomy(
                    old(self)@,
                    uses.len() + 2,
                ) ==> !is_lack(e)),
            },
    {
        let ghost before = self@;
        let u = match self.ensure_block_use_with_call_frames(&run.ops, run.rows, run.functions) {
            Ok(u) => u,
            Err(e) => {
                proof {
                    lemma_interned_code_kept(
                        before.nodes,
                        block_draft(batched(run.ops@), run.rows@, run.functions@),
                    );
                    lemma_run_same(before, self@, uses, uses.len());
                    lemma_spent_fails(self@, uses, e);
                    if is_roomy(before, uses.len() + 2) && run.ops@.len() <= u32::MAX {
                        lemma_roomy_records(
                            before,
                            self@,
                            block_draft(batched(run.ops@), run.rows@, run.functions@),
                            e,
                        );
                    }
                }
                return Err(e);
            },
        };
        let ghost mid = self@;
        proof {
            if is_quiet(before) {
                let draft = block_draft(batched(run.ops@), run.rows@, run.functions@);
                lemma_recorded_quiet(
                    before,
                    mid,
                    draft,
                    Seq::empty(),
                    0,
                    draft_op_count(draft) as u32,
                    u,
                );
            }
            assert forall|i: int| 0 <= i < run.occurrences@.len() implies (
            #[trigger] run.occurrences@[i]).0 < before.graph.nodes.len() && run.occurrences@[i].1
                <= run.ops@.len() by {
                assert(occurrence_noted(before, run, uses, i));
            }
        }
        proof {
            lemma_extends_code(before, mid);
        }
        if let Err(e) = self.record_merged_source_occurrences(u.node_ref, &run.occurrences) {
            proof {
                lemma_run_same(before, self@, uses, uses.len());
                if spent(self@, e) {
                    lemma_spent_fails(self@, uses, e);
                } else {
                    let i = choose|i: int|
                        0 <= i < run.occurrences@.len() && !movable(
                            self@.graph.nodes[(#[trigger] run.occurrences@[i]).0 as int],
                            run.occurrences@[i].1,
                        );
                    assert(occurrence_noted(before, run, uses, i));
                    lemma_unmovable_fails(self@, uses, i, run.occurrences@[i].1 as nat);
                }
            }
            return Err(e);
        }
        proof {
            lemma_extends_trans(before, mid, self@);
            if is_quiet(before) {
                assert forall|s: int| 0 <= s < self@.graph.nodes.len() implies !#[trigger]
                self@.graph.boundary[s] by {
                    if s < mid.graph.nodes.len() {
                        assert(self@.graph.boundary.take(mid.graph.boundary.len() as int)[s]
                            == mid.graph.boundary[s]);
                        assert(!mid.graph.boundary[s]);
                    }
                }
            }
            let w = MergeSteps { at: before, mid, end: self@ };
            let n = mid.graph.nodes.len();
            assert forall|i: int| 0 <= i < uses.len() implies ({
                let s = n + i;
                &&& !w.end.graph.boundary[s]
                &&& w.end.graph.nodes[s] == moved_occurrence(
                    w.mid.graph.nodes[(#[trigger] uses[i]).source_ref.0 as int],
                    u.node_ref.0,
                    run_ops(w.at, uses, i as nat).len() as u32,
                )
            }) by {
                assert(occurrence_noted(before, run, uses, i));
                assert(self@.graph.nodes[n + i] == moved_occurrence(
                    mid.graph.nodes[run.occurrences@[i].0 as int],
                    u.node_ref.0,
                    run.occurrences@[i].1,
                ));
            }
            reveal(run_merged);
            assert(run_merged(w, uses, u));
        }
        Ok(u)
    }

    fn block_merges(&self, u: MastNodeUse) -> (res: bool)
        requires
            self@.wf(),
            self@.has_use(u),
            self@.nodes[u.node_ref.0 as int].kind is BasicBlock,
        ensures
            res == merges(self@, u),
    {
        assert(self@.nodes[u.node_ref.0 as int] == self.nodes@[u.node_ref.0 as int]@);
        match &self.nodes[u.node_ref.0 as usize].kind {
            PendingMastNodeKind::BasicBlock { op_batches } => should_merge(
                self.is_procedure_root_ref(u.node_ref),
                op_batches.len(),
            ),
            _ => false,
        }
    }

    /// Merges adjacent basic blocks: runs of blocks that merge become one block each, with all
    /// their operations and rows in order; large procedures stay as they are.
    #[verifier::rlimit(50)]
    pub fn merge_basic_block_uses(&mut self, uses: &Vec<MastNodeUse>) -> (res: Result<
        Vec<MastNodeUse>,
        BuildError,
    >)
        requires
            old(self)@.wf(),
            old(self)@.graph.functions.len() <= u32::MAX,
            block_uses(old(self)@, uses@),
        ensures
            final(self).registry == old(self).registry,
            code_kept(old(self)@.nodes, final(self)@.nodes),
            uses@.len() <= 1 ==> res is Ok && res->Ok_0@ == uses@ && final(self)@ == old(self)@,
            match res {
                Ok(result) => {
                    &&& final(self)@.wf()
                    &&& extends(old(self)@, final(self)@)
                    &&& final(self)@.roots == old(self)@.roots
                    &&& final(self)@.graph.functions.len() == old(self)@.graph.functions.len()
                    &&& uses@.len() > 1 ==> segmented(
                        old(self)@,
                        final(self)@,
                        segments(old(self)@, uses@),
                        result@,
                    )
                    &&& forall|i: int|
                        0 <= i < result@.len() ==> final(self)@.has_use(#[trigger] result@[i])
                    &&& uses@.len() > 0 && !has_empty_block(old(self)@, uses@) ==> result@.len()
                        > 0
                    &&& result@.len() <= uses@.len()
                    &&& grew_by(
                        old(self)@,
                        final(self)@,
                        uses@.len() + 1,
                        2 * uses@.len() + 1,
                    )
                    &&& blocks_have_ops(old(self)@.nodes, final(self)@.nodes)
                },
                Err(e) => merge_failed(final(self)@, uses@, e) && (is_roomy(
                    old(self)@,
                    2 * uses@.len() + 4,
                ) ==> !is_lack(e)),
            },
    {
        let ghost b = self@;
        proof {
            lemma_extends_refl(b);
        }
        if uses.len() <= 1 {
            return Ok(copy_vec(uses));
        }
        let mut result: Vec<MastNodeUse> = Vec::new();
        let mut run = Run {
            ops: Vec::new(),
            rows: BlockRows::new(),
            functions: Vec::new(),
            occurrences: Vec::new(),
        };
        let ghost mut open: Seq<MastNodeUse> = Seq::empty();
        let ghost mut parts: Seq<Segment> = Seq::empty();
        assert(run.ops@ =~= Seq::<Operation>::empty());
        assert(run.functions@ =~= Seq::<u32>::empty());
        let mut i: usize = 0;
        proof {
            reveal(segmented);
            assert(segments_done(Seq::empty(), parts, result@));
            assert(segmented(b, self@, parts, result@));
        }
        while i < uses.len()
            invariant
                i <= uses@.len(),
                uses@.len() > 1,
                b.wf(),
                block_uses(b, uses@),
                b.graph.functions.len() <= u32::MAX,
                self.registry == old(self).registry,
                self@.wf(),
                extends(b, self@),
                self@.roots == b.roots,
                self@.graph.functions.len() == b.graph.functions.len(),
                run_inv(self@, run, open),
                old(self)@ == b,
                block_uses(b, open),
                block_uses(self@, open),
                code_kept(b.nodes, self@.nodes),
                blocks_have_ops(b.nodes, self@.nodes),
                forall|k: int| 0 <= k < open.len() ==> uses@.contains(#[trigger] open[k]),
                run.ops@.len() <= run_ops(b, uses@, i as nat).len(),
                i > 0 && !has_empty_block(b, uses@) ==> run.ops@.len() > 0 || result@.len() > 0,
                segments_upto(b, uses@, i as nat) == (parts, open),
                segmented(b, self@, parts, result@),
                forall|k: int| 0 <= k < result@.len() ==> self@.has_use(#[trigger] result@[k]),
                open.len() <= i,
                result@.len() + (if open.len() > 0 {
                    1nat
                } else {
                    0nat
                }) <= i,
                grew_by(b, self@, i as nat, (2 * i - open.len()) as nat),
            decreases uses@.len() - i,
        {
            proof {
                lemma_run_same(b, self@, open, open.len());
            }
            let u = uses[i];
            assert(b.has_use(uses@[i as int]));
            let ghost was_open = open;
            let ghost was_parts = parts;
            assert(self@.nodes[u.node_ref.0 as int] == b.nodes[u.node_ref.0 as int]);
            if self.block_merges(u) {
                let ghost filled = run.ops@.len();
                if let Err(e) = self.absorb(&mut run, u, Ghost(open)) {
                    proof {
                        lemma_run_grows(b, uses@, i as nat, uses@.len());
                        lemma_run_same(b, self@, uses@, uses@.len());
                        lemma_unmovable_fails(self@, uses@, i as int, filled);
                    }
                    return Err(e);
                }
                proof {
                    open = open.push(u);
                }
            } else {
                if run.ops.len() > 0 {
                    let ghost before = self@;
                    let full = run;
                    let ghost filled = full.ops@.len();
                    run =
                    Run {
                        ops: Vec::new(),
                        rows: BlockRows::new(),
                        functions: Vec::new(),
                        occurrences: Vec::new(),
                    };
                    let merged = match self.flush(full, Ghost(open)) {
                        Ok(merged) => merged,
                        Err(e) => {
                            proof {
                                lemma_run_grows(b, uses@, i as nat, uses@.len());
                                lemma_code_trans(b.nodes, before.nodes, self@.nodes);
                                lemma_run_same(b, self@, uses@, uses@.len());
                                lemma_run_same(b, self@, open, open.len());
                                lemma_failed_grows(self@, open, uses@, e);
                            }
                            return Err(e);
                        },
                    };
                    let ghost earlier = result@;
                    result.push(merged);
                    proof {
                        lemma_extends_trans(b, before, self@);
                        lemma_have_ops_trans(b.nodes, before.nodes, self@.nodes);
                        lemma_run_added(b, before, self@, parts, earlier, open, merged);
                        parts = parts.push(Segment::Merged(open));
                        open = Seq::empty();
                        assert(run.ops@ =~= Seq::<Operation>::empty());
                        assert(run.functions@ =~= Seq::<u32>::empty());
                        assert(run_inv(self@, run, open));
                        lemma_uses_kept(before, self@, earlier);
                    }
                }
                let ghost earlier = result@;
                result.push(u);
                proof {
                    lemma_kept_added(b, self@, parts, earlier, u);
                    parts = parts.push(Segment::Kept(u));
                }
            }
            i += 1;
        }
        proof {
            lemma_run_same(b, self@, open, open.len());
        }
        if run.ops.len() > 0 {
            let ghost before = self@;
            let ghost filled = run.ops@.len();
            let merged = match self.flush(run, Ghost(open)) {
                Ok(merged) => merged,
                Err(e) => {
                    proof {
                        lemma_code_trans(b.nodes, before.nodes, self@.nodes);
                        lemma_run_same(b, self@, uses@, uses@.len());
                        lemma_run_same(b, self@, open, open.len());
                        lemma_failed_grows(self@, open, uses@, e);
                    }
                    return Err(e);
                },
            };
            let ghost earlier = result@;
            result.push(merged);
            proof {
                lemma_extends_trans(b, before, self@);
                lemma_have_ops_trans(b.nodes, before.nodes, self@.nodes);
                lemma_run_added(b, before, self@, parts, earlier, open, merged);
                lemma_uses_kept(before, self@, earlier);
            }
        }
        Ok(result)
    }

    /// Merges the basic blocks in every stretch of adjacent ones; the other nodes keep their
    /// places.
    #[verifier::rlimit(50)]
    pub fn merge_contiguous_basic_block_uses(&mut self, uses: &Vec<MastNodeUse>) -> (res: Result<
        Vec<MastNodeUse>,
        BuildError,
    >)
        requires
            old(self)@.wf(),
            old(self)@.graph.functions.len() <= u32::MAX,
            forall|i: int| 0 <= i < uses@.len() ==> old(self)@.has_use(#[trigger] uses@[i]),
        ensures
            final(self).registry == old(self).registry,
            match res {
                Ok(result) => {
                    &&& final(self)@.wf()
                    &&& extends(old(self)@, final(self)@)
                    &&& final(self)@.roots == old(self)@.roots
                    &&& final(self)@.graph.functions.len() == old(self)@.graph.functions.len()
                    &&& forall|i: int|
                        0 <= i < result@.len() ==> final(self)@.has_use(#[trigger] result@[i])
                    &&& merged_stretches(old(self)@, final(self)@, uses@, result@)
                    &&& uses@.len() > 0 && !has_empty_block(old(self)@, uses@) ==> result@.len()
                        > 0
                    &&& result@.len() <= uses@.len()
                    &&& grew_by(
                        old(self)@,
                        final(self)@,
                        2 * uses@.len() + 1,
                        3 * uses@.len() + 1,
                    )
                },
                Err(e) => merge_failed(final(self)@, uses@, e) && (is_roomy(
                    old(self)@,
                    3 * uses@.len() + 8,
                ) ==> !is_lack(e)),
            },
    {
        let ghost b = self@;
        proof {
            lemma_extends_refl(b);
        }
        let mut result: Vec<MastNodeUse> = Vec::new();
        let mut stretch: Vec<MastNodeUse> = Vec::new();
        let ghost mut pieces: Seq<Piece> = Seq::empty();
        let mut i: usize = 0;
        assert(uses@.take(0) =~= pieces_in(pieces) + stretch@);
        while i < uses.len()
            invariant
                i <= uses@.len(),
                b.wf(),
                self.registry == old(self).registry,
                self@.wf(),
                extends(b, self@),
                self@.roots == b.roots,
                self@.graph.functions.len() == b.graph.functions.len() <= u32::MAX,
                old(self)@ == b,
                code_kept(b.nodes, self@.nodes),
                blocks_have_ops(b.nodes, self@.nodes),
                i > 0 ==> result@.len() > 0 || stretch@.len() > 0,
                forall|k: int| 0 <= k < stretch@.len() ==> uses@.contains(#[trigger] stretch@[k]),
                forall|i: int| 0 <= i < uses@.len() ==> b.has_use(#[trigger] uses@[i]),
                forall|i: int|
                    0 <= i < stretch@.len() ==> b.has_use(#[trigger] stretch@[i])
                        && self@.nodes[stretch@[i].node_ref.0 as int].kind is BasicBlock,
                forall|i: int| 0 <= i < result@.len() ==> self@.has_use(#[trigger] result@[i]),
                uses@.take(i as int) == pieces_in(pieces) + stretch@,
                pieces_out(pieces) == result@,
                pieces_hold(b, self@, pieces),
                stretch@.len() + result@.len() <= i,
                grew_by(
                    b,
                    self@,
                    (2 * i - 2 * stretch@.len()) as nat,
                    (3 * i - 3 * stretch@.len()) as nat,
                ),
                forall|k: int| 0 <= k < pieces.len() ==> (#[trigger] pieces[k]).other is Some,
            decreases uses@.len() - i,
        {
            let u = uses[i];
            assert(b.has_use(uses@[i as int]));
            assert(uses@.take(i + 1) =~= uses@.take(i as int).push(u));
            assert(self@.nodes[u.node_ref.0 as int] == self.nodes@[u.node_ref.0 as int]@);
            if self.nodes[u.node_ref.0 as usize].kind.is_basic_block() {
                stretch.push(u);
                assert(uses@.take(i + 1) =~= pieces_in(pieces) + stretch@);
            } else {
                let ghost before = self@;
                proof {
                    assert(block_uses(before, stretch@)) by {
                        assert forall|k: int| 0 <= k < stretch@.len() implies before.has_use(
                            #[trigger] stretch@[k],
                        ) && before.nodes[stretch@[k].node_ref.0 as int].kind is BasicBlock by {
                            assert(b.has_use(stretch@[k]));
                        }
                    }
                }
                let mut merged = match self.merge_basic_block_uses(&stretch) {
                    Ok(merged) => merged,
                    Err(e) => {
                        proof {
                            lemma_stretch_ops(self@, uses@, pieces_in(pieces), stretch@);
                            lemma_failed_grows(self@, stretch@, uses@, e);
                        }
                        return Err(e);
                    },
                };
                let ghost earlier = result@;
                let ghost out = merged@;
                proof {
                    lemma_extends_trans(b, before, self@);
                    lemma_have_ops_trans(b.nodes, before.nodes, self@.nodes);
                }
                result.append(&mut merged);
                result.push(u);
                proof {
                    let piece = Piece {
                        stretch: stretch@,
                        out,
                        other: Some(u),
                        at: before,
                        end: self@,
                    };
                    let was = pieces;
                    pieces = pieces.push(piece);
                    assert(pieces.drop_last() =~= was);
                    assert(result@ =~= pieces_out(pieces));
                    assert(uses@.take(i + 1) =~= pieces_in(pieces));
                    lemma_piece_added(b, before, was, piece);
                    assert forall|k: int| 0 <= k < result@.len() implies self@.has_use(
                        #[trigger] result@[k],
                    ) by {
                        if k < earlier.len() {
                            assert(result@[k] == earlier[k]);
                            assert(before.has_use(earlier[k]));
                        } else if k < earlier.len() + out.len() {
                            assert(result@[k] == out[k - earlier.len()]);
                        }
                    }
                }
                stretch.clear();
                assert(uses@.take(i + 1) =~= pieces_in(pieces) + stretch@);
            }
            i += 1;
        }
        let ghost before = self@;
        proof {
            assert(block_uses(before, stretch@)) by {
                assert forall|k: int| 0 <= k < stretch@.len() implies before.has_use(
                    #[trigger] stretch@[k],
                ) && before.nodes[stretch@[k].node_ref.0 as int].kind is BasicBlock by {
                    assert(b.has_use(stretch@[k]));
                }
            }
        }
        proof {
            if has_empty_block(before, stretch@) {
                let k = choose|k: int|
                    0 <= k < stretch@.len() && before.nodes[(
                    #[trigger] stretch@[k]).node_ref.0 as int].kind is BasicBlock && use_ops(
                        before,
                        stretch@[k],
                    ).len() == 0;
                assert(uses@.contains(stretch@[k]));
                let q = choose|q: int| 0 <= q < uses@.len() && uses@[q] == stretch@[k];
                assert(b.has_use(uses@[q]));
                assert(!(b.nodes[uses@[q].node_ref.0 as int].kind is External));
                assert(use_ops(b, uses@[q]) == use_ops(before, stretch@[k]));
            }
        }
        let mut merged = match self.merge_basic_block_uses(&stretch) {
            Ok(merged) => merged,
            Err(e) => {
                proof {
                    assert(uses@.take(i as int) =~= uses@);
                    lemma_stretch_ops(self@, uses@, pieces_in(pieces), stretch@);
                    lemma_failed_grows(self@, stretch@, uses@, e);
                }
                return Err(e);
            },
        };
        let ghost earlier = result@;
        let ghost out = merged@;
        result.append(&mut merged);
        proof {
            lemma_extends_trans(b, before, self@);
            let piece = Piece { stretch: stretch@, out, other: None, at: before, end: self@ };
            let was = pieces;
            let all = pieces.push(piece);
            assert(all.drop_last() =~= was);
            assert(result@ =~= pieces_out(all));
            assert(uses@.take(i as int) =~= uses@);
            assert(uses@ =~= pieces_in(all));
            lemma_piece_added(b, before, was, piece);
            assert forall|k: int| 0 <= k < all.len() - 1 implies (#[trigger] all[k]).other is Some by {
                assert(all[k] == was[k]);
            }
            assert forall|k: int| 0 <= k < result@.len() implies self@.has_use(
                #[trigger] result@[k],
            ) by {
                if k < earlier.len() {
                    assert(result@[k] == earlier[k]);
                    assert(before.has_use(earlier[k]));
                } else {
                    assert(result@[k] == out[k - earlier.len()]);
                }
            }
        }
        Ok(result)
    }
}

/// A stretch of adjacent blocks, what it was merged into, and the other node behind it.
pub ghost struct Piece {
    pub stretch: Seq<MastNodeUse>,
    pub out: Seq<MastNodeUse>,
    pub other: Option<MastNodeUse>,
    /// The builder before and after the stretch was merged.
    pub at: BuilderModel,
    pub end: BuilderModel,
}

pub open spec fn pieces_in(pieces: Seq<Piece>) -> Seq<MastNodeUse>
    decreases pieces.len(),
{
    if pieces.len() == 0 {
        Seq::empty()
    } else {
        let p = pieces.last();
        pieces_in(pieces.drop_last()) + p.stretch + match p.other {
            Some(u) => seq![u],
            None => Seq::empty(),
        }
    }
}

pub open spec fn pieces_out(pieces: Seq<Piece>) -> Seq<MastNodeUse>
    decreases pieces.len(),
{
    if pieces.len() == 0 {
        Seq::empty()
    } else {
        let p = pieces.last();
        pieces_out(pieces.drop_last()) + p.out + match p.other {
            Some(u) => seq![u],
            None => Seq::empty(),
        }
    }
}

/// A stretch was merged as its segments say.
pub open spec fn piece_holds(p: Piece) -> bool {
    &&& block_uses(p.at, p.stretch)
    &&& p.other is Some ==> !(p.at.nodes[p.other->0.node_ref.0 as int].kind is BasicBlock)
    &&& if p.stretch.len() <= 1 {
        p.out == p.stretch && p.end == p.at
    } else {
        segmented(p.at, p.end, segments(p.at, p.stretch), p.out)
    }
}

/// Stretches were merged one after another.
pub open spec fn pieces_hold(b: BuilderModel, after: BuilderModel, pieces: Seq<Piece>) -> bool {
    &&& forall|k: int| 0 <= k < pieces.len() ==> piece_holds(#[trigger] pieces[k])
    &&& forall|k: int| 0 < k < pieces.len() ==> (#[trigger] pieces[k]).at == pieces[k - 1].end
    &&& if pieces.len() == 0 {
        after == b
    } else {
        pieces[0].at == b && pieces.last().end == after
    }
}

/// `uses` falls into stretches of blocks with other nodes between them, and `result` holds what
/// the stretches were merged into, with the other nodes in their places.
pub open spec fn merged_stretches(
    b: BuilderModel,
    after: BuilderModel,
    uses: Seq<MastNodeUse>,
    result: Seq<MastNodeUse>,
) -> bool {
    exists|pieces: Seq<Piece>| #[trigger]
        pieces_hold(b, after, pieces) && pieces_in(pieces) == uses && pieces_out(pieces) == result
            && forall|k: int|
            0 <= k < pieces.len() - 1 ==> (#[trigger] pieces[k]).other is Some
}

proof fn lemma_piece_added(b: BuilderModel, before: BuilderModel, pieces: Seq<Piece>, piece: Piece)
    requires
        pieces_hold(b, before, pieces),
        piece_holds(piece),
        piece.at == before,
    ensures
        pieces_hold(b, piece.end, pieces.push(piece)),
{
    let all = pieces.push(piece);
    assert forall|k: int| 0 <= k < all.len() implies piece_holds(#[trigger] all[k]) by {
        if k < pieces.len() {
            assert(all[k] == pieces[k]);
        }
    }
    assert forall|k: int| 0 < k < all.len() implies (#[trigger] all[k]).at == all[k - 1].end by {
        if k < pieces.len() {
            assert(pieces[k].at == pieces[k - 1].end);
        }
    }
}

proof fn lemma_segment_added(
    b: BuilderModel,
    before: BuilderModel,
    parts: Seq<Segment>,
    result: Seq<MastNodeUse>,
    w: MergeSteps,
    part: Segment,
    u: MastNodeUse,
)
    requires
        segmented(b, before, parts, result),
        segment_done(w, part, u),
        w.at == before,
    ensures
        segmented(b, w.end, parts.push(part), result.push(u)),
{
    reveal(segmented);
    let steps = choose|steps: Seq<MergeSteps>| #[trigger]
        segments_done(steps, parts, result) && if steps.len() == 0 {
            before == b
        } else {
            steps[0].at == b && steps.last().end == before
        };
    let all = steps.push(w);
    let more = parts.push(part);
    let uses = result.push(u);
    assert forall|i: int| 0 <= i < all.len() implies segment_done(
        #[trigger] all[i],
        more[i],
        uses[i],
    ) by {
        if i < steps.len() {
            assert(segment_done(steps[i], parts[i], result[i]));
        }
    }
    assert forall|i: int| 0 < i < all.len() implies (#[trigger] all[i]).at == all[i - 1].end by {
        if i < steps.len() {
            assert(steps[i].at == steps[i - 1].end);
        }
    }
    assert(segments_done(all, more, uses));
}

proof fn lemma_kept_added(
    b: BuilderModel,
    after: BuilderModel,
    parts: Seq<Segment>,
    result: Seq<MastNodeUse>,
    u: MastNodeUse,
)
    requires
        segmented(b, after, parts, result),
    ensures
        segmented(b, after, parts.push(Segment::Kept(u)), result.push(u)),
{
    let w = MergeSteps { at: after, mid: after, end: after };
    lemma_segment_added(b, after, parts, result, w, Segment::Kept(u), u);
}

proof fn lemma_run_added(
    b: BuilderModel,
    before: BuilderModel,
    after: BuilderModel,
    parts: Seq<Segment>,
    result: Seq<MastNodeUse>,
    run: Seq<MastNodeUse>,
    u: MastNodeUse,
)
    requires
        segmented(b, before, parts, result),
        exists|w: MergeSteps| #[trigger] run_merged(w, run, u) && w.at == before && w.end == after,
    ensures
        segmented(b, after, parts.push(Segment::Merged(run)), result.push(u)),
{
    let w = choose|w: MergeSteps| #[trigger]
        run_merged(w, run, u) && w.at == before && w.end == after;
    lemma_segment_added(b, before, parts, result, w, Segment::Merged(run), u);
}

/// Uses stay while building goes on.
proof fn lemma_uses_kept(before: BuilderModel, after: BuilderModel, uses: Seq<MastNodeUse>)
    requires
        extends(before, after),
        forall|k: int| 0 <= k < uses.len() ==> before.has_use(#[trigger] uses[k]),
    ensures
        forall|k: int| 0 <= k < uses.len() ==> after.has_use(#[trigger] uses[k]),
{
    assert forall|k: int| 0 <= k < uses.len() implies after.has_use(#[trigger] uses[k]) by {
        assert(before.has_use(uses[k]));
    }
}

// JOINING
// ================================================================================================

/// The draft of a join, with the row of an assembly operation if it belongs to one.
pub open spec fn join_draft(
    b: BuilderModel,
    left: MastNodeUse,
    right: MastNodeUse,
    asm_op: Option<AssemblyOp>,
) -> DraftModel {
    let digest = merge_in_domain_spec(
        digest_of_ref(b, left.node_ref),
        digest_of_ref(b, right.node_ref),
        JOIN_DOMAIN,
    );
    let refs = seq![left.node_ref, right.node_ref];
    match asm_op {
        Some(op) => control_draft(PendingKind::Join, digest, refs, op, Seq::empty()),
        None => bare_draft(PendingKind::Join, digest, refs),
    }
}

/// Two uses were joined: a join of their nodes was recorded over their occurrences.
pub open spec fn join_recorded(
    b: BuilderModel,
    after: BuilderModel,
    left: MastNodeUse,
    right: MastNodeUse,
    asm_op: Option<AssemblyOp>,
    u: MastNodeUse,
) -> bool {
    recorded(
        b,
        after,
        join_draft(b, left, right, asm_op),
        seq![left.source_ref.0, right.source_ref.0],
        u,
    )
}

/// Neighbours were joined in pairs, one pair after another.
pub open spec fn pairs_joined(
    states: Seq<BuilderModel>,
    uses: Seq<MastNodeUse>,
    asm_op: Option<AssemblyOp>,
    next: Seq<MastNodeUse>,
) -> bool {
    &&& states.len() == uses.len() / 2 + 1
    &&& forall|i: int|
        0 <= i < uses.len() / 2 ==> join_recorded(
            states[i],
            states[i + 1],
            uses[2 * i],
            uses[2 * i + 1],
            asm_op,
            #[trigger] next[i],
        )
}

/// One level of the tree: neighbours are joined in pairs, an odd last one goes up as it is.
pub open spec fn paired(
    b: BuilderModel,
    after: BuilderModel,
    uses: Seq<MastNodeUse>,
    asm_op: Option<AssemblyOp>,
    next: Seq<MastNodeUse>,
) -> bool {
    &&& next.len() == (uses.len() + 1) / 2
    &&& uses.len() % 2 == 1 ==> next.last() == uses.last()
    &&& exists|states: Seq<BuilderModel>| #[trigger]
        pairs_joined(states, uses, asm_op, next) && states[0] == b && states.last() == after
}

/// The levels of a tree from its leaves to its root, and the states when each was complete.
pub open spec fn is_tree(
    asm_op: Option<AssemblyOp>,
    levels: Seq<Seq<MastNodeUse>>,
    states: Seq<BuilderModel>,
) -> bool {
    &&& levels.len() > 0
    &&& states.len() == levels.len()
    &&& levels.last().len() == 1
    &&& forall|i: int|
        0 <= i < levels.len() - 1 ==> paired(
            states[i],
            states[i + 1],
            #[trigger] levels[i],
            asm_op,
            levels[i + 1],
        )
}

/// `root` is the root of a balanced tree of joins over `uses`, which was built level by level.
pub open spec fn joined(
    b: BuilderModel,
    after: BuilderModel,
    uses: Seq<MastNodeUse>,
    asm_op: Option<AssemblyOp>,
    root: MastNodeUse,
) -> bool {
    exists|levels: Seq<Seq<MastNodeUse>>, states: Seq<BuilderModel>| #[trigger]
        is_tree(asm_op, levels, states) && levels[0] == uses && levels.last()[0] == root
            && states[0] == b && states.last() == after
}

impl MastForestBuilder {
    /// Joins two uses.
    fn join_pair(&mut self, left: MastNodeUse, right: MastNodeUse, asm_op: Option<AssemblyOp>) -> (
    res: Result<MastNodeUse, BuildError>)
        requires
            old(self)@.wf(),
            old(self)@.has_use(left),
            old(self)@.has_use(right),
        ensures
            final(self).registry == old(self).registry,
            match res {
                Ok(u) => {
                    &&& final(self)@.wf()
                    &&& extends(old(self)@, final(self)@)
                    &&& final(self)@.roots == old(self)@.roots
                    &&& final(self)@.graph.functions.len() == old(self)@.graph.functions.len()
                    &&& final(self)@.has_use(u)
                    &&& join_recorded(old(self)@, final(self)@, left, right, asm_op, u)
                    &&& grew_by(old(self)@, final(self)@, 1, 1)
                },
                Err(e) => spent(final(self)@, e) && !is_roomy(old(self)@, 1),
            },
    {
        let ghost b = self@;
        let digest = merge_in_domain(
            &self.mast_root(left.node_ref),
            &self.mast_root(right.node_ref),
            JOIN_DOMAIN,
        );
        let mut refs: Vec<MastNodeRef> = Vec::new();
        refs.push(left.node_ref);
        refs.push(right.node_ref);
        let mut sources: Vec<u32> = Vec::new();
        sources.push(left.source_ref.0);
        sources.push(right.source_ref.0);
        assert(refs@ =~= seq![left.node_ref, right.node_ref]);
        assert(sources@ =~= seq![left.source_ref.0, right.source_ref.0]);
        let mut draft = PendingMastNodeDraft::new(PendingMastNodeKind::Join, digest, refs);
        if let Some(op) = asm_op {
            let mut rows: Vec<DebugSourceAsmOp> = Vec::new();
            rows.push(
                DebugSourceAsmOp {
                    op_idx: 0,
                    location_idx: op.location_idx,
                    context_name_idx: op.context_name_idx,
                    op_name_idx: op.op_name_idx,
                    num_cycles: op.num_cycles,
                },
            );
            assert(rows@ =~= seq![first_row(op)]);
            draft.asm_ops = rows;
        }
        assert(draft@ == join_draft(b, left, right, asm_op));
        proof {
            if let Some(op) = asm_op {
                lemma_control_count(draft@, op);
            }
        }
        let ghost model = draft@;
        let res = self.intern_pending_node_use(&draft, &sources);
        proof {
            match res {
                Ok(u) => {
                    if is_quiet(b) {
                        lemma_recorded_quiet(
                            b,
                            self@,
                            model,
                            sources@,
                            0,
                            draft_op_count(model) as u32,
                            u,
                        );
                    }
                },
                Err(e) => {
                    if is_roomy(b, 1) {
                        lemma_roomy_records(b, self@, model, e);
                    }
                },
            }
        }
        res
    }

    /// Joins one level of the tree.
    fn join_level(&mut self, uses: &Vec<MastNodeUse>, asm_op: Option<AssemblyOp>) -> (res: Result<
        Vec<MastNodeUse>,
        BuildError,
    >)
        requires
            old(self)@.wf(),
            uses@.len() > 1,
            forall|i: int| 0 <= i < uses@.len() ==> old(self)@.has_use(#[trigger] uses@[i]),
        ensures
            final(self).registry == old(self).registry,
            match res {
                Ok(next) => {
                    &&& final(self)@.wf()
                    &&& extends(old(self)@, final(self)@)
                    &&& final(self)@.roots == old(self)@.roots
                    &&& final(self)@.graph.functions.len() == old(self)@.graph.functions.len()
                    &&& paired(old(self)@, final(self)@, uses@, asm_op, next@)
                    &&& forall|i: int|
                        0 <= i < next@.len() ==> final(self)@.has_use(#[trigger] next@[i])
                    &&& grew_by(old(self)@, final(self)@, uses@.len() / 2, uses@.len() / 2)
                },
                Err(e) => spent(final(self)@, e) && !is_roomy(old(self)@, uses@.len()),
            },
    {
        let ghost b = self@;
        proof {
            lemma_extends_refl(b);
        }
        let mut next: Vec<MastNodeUse> = Vec::new();
        let ghost mut states: Seq<BuilderModel> = seq![b];
        let n: usize = uses.len();
        let half: usize = n / 2;
        let mut i: usize = 0;
        while i < half
            invariant
                n == uses@.len(),
                i <= half == n / 2,
                b.wf(),
                self.registry == old(self).registry,
                self@.wf(),
                extends(b, self@),
                self@.roots == b.roots,
                self@.graph.functions.len() == b.graph.functions.len(),
                forall|i: int| 0 <= i < uses@.len() ==> b.has_use(#[trigger] uses@[i]),
                next@.len() == i,
                forall|k: int| 0 <= k < next@.len() ==> self@.has_use(#[trigger] next@[k]),
                b == old(self)@,
                states.len() == i + 1,
                states[0] == b,
                states.last() == self@,
                grew_by(b, self@, i as nat, i as nat),
                forall|k: int|
                    0 <= k < i ==> join_recorded(
                        states[k],
                        states[k + 1],
                        uses@[2 * k],
                        uses@[2 * k + 1],
                        asm_op,
                        #[trigger] next@[k],
                    ),
            decreases half - i,
        {
            let ghost before = self@;
            let left = uses[2 * i];
            let right = uses[2 * i + 1];
            assert(b.has_use(uses@[2 * i]) && b.has_use(uses@[2 * i + 1]));
            let u = match self.join_pair(left, right, asm_op) {
                Ok(u) => u,
                Err(e) => {
                    return Err(e);
                },
            };
            let ghost earlier = next@;
            next.push(u);
            proof {
                lemma_extends_trans(b, before, self@);
                let was = states;
                states = states.push(self@);
                lemma_uses_kept(before, self@, earlier);
                assert forall|k: int| 0 <= k < i + 1 implies join_recorded(
                    states[k],
                    states[k + 1],
                    uses@[2 * k],
                    uses@[2 * k + 1],
                    asm_op,
                    #[trigger] next@[k],
                ) by {
                    if k < i {
                        assert(next@[k] == earlier[k]);
                        assert(states[k] == was[k] && states[k + 1] == was[k + 1]);
                    }
                }
            }
            i += 1;
        }
        if uses.len() % 2 == 1 {
            assert(b.has_use(uses@[uses@.len() - 1]));
            next.push(uses[uses.len() - 1]);
        }
        assert(pairs_joined(states, uses@, asm_op, next@));
        Ok(next)
    }

    /// Joins uses into one: adjacent basic blocks are merged, and what is left is joined in a
    /// balanced binary tree.
    #[verifier::rlimit(50)]
    pub fn join_node_uses(&mut self, uses: &Vec<MastNodeUse>, asm_op: Option<AssemblyOp>) -> (res:
        Result<MastNodeUse, BuildError>)
        requires
            old(self)@.wf(),
            old(self)@.graph.functions.len() <= u32::MAX,
            uses@.len() > 0,
            forall|i: int| 0 <= i < uses@.len() ==> old(self)@.has_use(#[trigger] uses@[i]),
        ensures
            final(self).registry == old(self).registry,
            match res {
                Ok(root) => {
                    &&& final(self)@.wf()
                    &&& extends(old(self)@, final(self)@)
                    &&& final(self)@.roots == old(self)@.roots
                    &&& final(self)@.graph.functions.len() == old(self)@.graph.functions.len()
                    &&& final(self)@.has_use(root)
                    &&& exists|mid: BuilderModel, merged: Seq<MastNodeUse>|
                        #[trigger] merged_stretches(old(self)@, mid, uses@, merged) && joined(
                            mid,
                            final(self)@,
                            merged,
                            asm_op,
                            root,
                        )
                },
                Err(e) => join_failed(old(self)@, final(self)@, uses@, e) && (is_roomy(
                    old(self)@,
                    4 * uses@.len() + 8,
                ) ==> !is_lack(e)),
            },
    {
        let ghost b = self@;
        let mut level = match self.merge_contiguous_basic_block_uses(uses) {
            Ok(level) => level,
            Err(e) => {
                return Err(e);
            },
        };
        let ghost mid = self@;
        let ghost merged = level@;
        let ghost mut levels: Seq<Seq<MastNodeUse>> = seq![level@];
        let ghost mut states: Seq<BuilderModel> = seq![mid];
        proof {
            lemma_extends_refl(mid);
        }
        if level.len() == 0 {
            return Err(BuildError::EmptyBasicBlock);
        }
        while level.len() > 1
            invariant
                b.wf(),
                old(self)@ == b,
                mid.wf(),
                extends(b, mid),
                self.registry == old(self).registry,
                self@.wf(),
                extends(mid, self@),
                self@.roots == b.roots,
                self@.graph.functions.len() == b.graph.functions.len(),
                level@.len() > 0,
                forall|i: int| 0 <= i < level@.len() ==> self@.has_use(#[trigger] level@[i]),
                levels.len() > 0,
                levels[0] == merged,
                levels.last() == level@,
                states.len() == levels.len(),
                states[0] == mid,
                states.last() == self@,
                merged.len() <= uses@.len(),
                level@.len() <= merged.len(),
                grew_by(b, mid, 2 * uses@.len() + 1, 3 * uses@.len() + 1),
                grew_by(
                    mid,
                    self@,
                    (merged.len() - level@.len()) as nat,
                    (merged.len() - level@.len()) as nat,
                ),
                forall|i: int|
                    0 <= i < levels.len() - 1 ==> paired(
                        states[i],
                        states[i + 1],
                        #[trigger] levels[i],
                        asm_op,
                        levels[i + 1],
                    ),
            decreases level@.len(),
        {
            let ghost before = self@;
            let ghost below = level@;
            let next = match self.join_level(&level, asm_op) {
                Ok(next) => next,
                Err(e) => {
                    proof {
                        lemma_spent_fails(self@, uses@, e);
                    }
                    return Err(e);
                },
            };
            proof {
                lemma_extends_trans(mid, before, self@);
                let was = levels;
                let earlier = states;
                levels = levels.push(next@);
                states = states.push(self@);
                assert forall|i: int| 0 <= i < levels.len() - 1 implies paired(
                    states[i],
                    states[i + 1],
                    #[trigger] levels[i],
                    asm_op,
                    levels[i + 1],
                ) by {
                    if i < was.len() - 1 {
                        assert(levels[i] == was[i] && levels[i + 1] == was[i + 1]);
                        assert(states[i] == earlier[i] && states[i + 1] == earlier[i + 1]);
                    } else {
                        assert(levels[i] == below && levels[i + 1] == next@);
                        assert(states[i] == before && states[i + 1] == self@);
                    }
                }
            }
            level = next;
        }
        proof {
            lemma_extends_trans(b, mid, self@);
            assert(is_tree(asm_op, levels, states));
            assert(joined(mid, self@, merged, asm_op, level@[0]));
        }
        Ok(level[0])
    }
}

// LAWS
// ================================================================================================

/// The same operations are one node, whatever rows and functions they come with: once a block of
/// them was recorded, another one is interned as the same node, and no node is added for it.
pub proof fn law_same_operations_one_node(
    b: BuilderModel,
    after: BuilderModel,
    ops: Seq<Operation>,
    rows: RowsModel,
    functions: Seq<u32>,
    u: MastNodeUse,
    other_rows: RowsModel,
    other_functions: Seq<u32>,
)
    requires
        b.wf(),
        after.wf(),
        recorded(b, after, block_draft(batched(ops), rows, functions), Seq::empty(), u),
    ensures
        ({
            let again = block_draft(batched(ops), other_rows, other_functions);
            let key = draft_key(after.nodes, again);
            &&& interned_ref(after.nodes, key) == u.node_ref.0
            &&& interned_nodes(after.nodes, again, key).len() == after.nodes.len()
        }),
{
    let draft = block_draft(batched(ops), rows, functions);
    law_interned_once(
        b,
        after,
        draft,
        Seq::empty(),
        0,
        draft_op_count(draft) as u32,
        u,
        block_draft(batched(ops), other_rows, other_functions),
    );
}

proof fn lemma_functions_of(
    functions: Seq<crate::source_graph::FunctionInfo>,
    source: u32,
    k: nat,
    f: u32,
)
    requires
        k <= functions.len() <= u32::MAX,
    ensures
        functions_of(functions, source, k).contains(f) <==> f < k
            && functions[f as int].source_node == Some(source),
    decreases k,
{
    if k > 0 {
        lemma_functions_of(functions, source, (k - 1) as nat, f);
        let before = functions_of(functions, source, (k - 1) as nat);
        if functions[k - 1].source_node == Some(source) {
            let all = before.push((k - 1) as u32);
            assert(all[before.len() as int] == k - 1);
            if before.contains(f) {
                assert(all[before.index_of(f)] == f);
            }
            if all.contains(f) && f != k - 1 {
                assert(before[all.index_of(f)] == f);
            }
        }
    }
}

/// The functions of blocks that become one are those that were recorded at any of their occurrences.
pub proof fn law_merged_functions_are_those_of_the_blocks(
    g: GraphModel,
    run: Seq<MastNodeUse>,
    k: nat,
    f: u32,
)
    requires
        k <= run.len(),
        g.functions.len() <= u32::MAX,
    ensures
        run_functions(g, run, k).contains(f) <==> f < g.functions.len() && exists|i: int|
            0 <= i < k && g.functions[f as int].source_node == Some((#[trigger] run[i]).source_ref.0),
    decreases k,
{
    if k > 0 {
        law_merged_functions_are_those_of_the_blocks(g, run, (k - 1) as nat, f);
        let before = run_functions(g, run, (k - 1) as nat);
        let own = functions_of(g.functions, run[k - 1].source_ref.0, g.functions.len());
        lemma_functions_of(g.functions, run[k - 1].source_ref.0, g.functions.len(), f);
        let all = before + own;
        if before.contains(f) {
            assert(all[before.index_of(f)] == f);
        }
        if own.contains(f) {
            assert(all[before.len() + own.index_of(f)] == f);
        }
        if all.contains(f) {
            let p = all.index_of(f);
            if p < before.len() {
                assert(before[p] == f);
            } else {
                assert(own[p - before.len()] == f);
            }
        }
    }
}

/// A draft of a block holds all operations of a run of blocks in order, all their rows and all their
/// functions.
pub open spec fn holds_run(at: BuilderModel, run: Seq<MastNodeUse>, draft: DraftModel) -> bool {
    let rows = run_rows(at, run, run.len());
    &&& draft.kind == PendingKind::BasicBlock(batched(run_ops(at, run, run.len())))
    &&& draft.asm_ops == rows.asm_ops
    &&& draft.debug_vars == rows.debug_vars
    &&& draft.inline_calls == rows.inline_calls
    &&& draft.call_frames == rows.call_frames
    &&& draft.functions == run_functions(at.graph, run, run.len())
}

/// What was recorded for a run of blocks.
pub open spec fn recorded_run(
    w: MergeSteps,
    run: Seq<MastNodeUse>,
    draft: DraftModel,
    u: MastNodeUse,
) -> bool {
    holds_run(w.at, run, draft) && recorded(w.at, w.mid, draft, Seq::empty(), u)
}

/// The block that a run of blocks becomes holds all of them.
pub proof fn law_merged_blocks_hold_everything(w: MergeSteps, run: Seq<MastNodeUse>, u: MastNodeUse)
    requires
        run_merged(w, run, u),
    ensures
        exists|draft: DraftModel| #[trigger] recorded_run(w, run, draft, u),
{
    let draft = block_draft(
        batched(run_ops(w.at, run, run.len())),
        run_rows(w.at, run, run.len()),
        run_functions(w.at.graph, run, run.len()),
    );
    assert(holds_run(w.at, run, draft));
    assert(recorded(w.at, w.mid, draft, Seq::empty(), u)) by {
        reveal(run_merged);
    }
    assert(recorded_run(w, run, draft, u));
}

/// Each block of a run has an occurrence in the block that the run becomes, from where its operations
/// start there, with its rows.
pub proof fn law_merged_blocks_occur_in_the_whole(
    w: MergeSteps,
    run: Seq<MastNodeUse>,
    u: MastNodeUse,
    i: int,
)
    requires
        run_merged(w, run, u),
        0 <= i < run.len(),
    ensures
        w.end.graph.nodes.len() == w.mid.graph.nodes.len() + run.len(),
        ({
            let part = w.end.graph.nodes[w.mid.graph.nodes.len() + i];
            let whole = w.mid.graph.nodes[run[i].source_ref.0 as int];
            &&& part.exec_node == u.node_ref.0
            &&& part.op_start == run_ops(w.at, run, i as nat).len() as u32
            &&& part.children == whole.children
            &&& part.asm_ops.len() == whole.asm_ops.len()
            &&& part.debug_vars.len() == whole.debug_vars.len()
            &&& part.inline_calls.len() == whole.inline_calls.len()
            &&& part.call_frames.len() == whole.call_frames.len()
        }),
{
    assert(occurrences_moved(w, run, u.node_ref.0)) by {
        reveal(run_merged);
    }
    let moved = run[i];
    assert(w.end.graph.nodes[w.mid.graph.nodes.len() + i] == moved_occurrence(
        w.mid.graph.nodes[moved.source_ref.0 as int],
        u.node_ref.0,
        run_ops(w.at, run, i as nat).len() as u32,
    ));
}

} // verus!
