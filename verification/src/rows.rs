//! Rows of debug information stay with the operations that they speak of.

use vstd::prelude::*;

use crate::batch::{raw_of, BatchModel};
use crate::block::all_ops;
use crate::builder::BuilderModel;
use crate::debug_info::{
    collect_all, lemma_collected_items, lookup, source_models, DebugSourceAsmOp,
    DebugSourceCallFrame, DebugSourceInlineCall, DebugSourceVar, MissingIndex, SourceModel,
    TablesModel,
};
use crate::felt::Word;
use crate::finalizer::{
    final_asm_op, final_call_frame, final_calls, final_child, final_debug_var, final_frame_range,
    final_functions, final_id, final_index, final_inline_call, final_roots, final_source_range,
    is_live, is_misfit, kind_wf, lemma_live_monotone, live_before, placed_source, placed_upto,
    rows_fit, source_id, with_calls, FinalSourceGraph, MastForestBuilderError,
};
use crate::finish::{finished_over, lemma_misfits, out_of_range};
use crate::forest::ForestModel;
use crate::merge::{moved_occurrence, run_ops, run_rows, use_ops};
use crate::node::{KindModel, NodeModel};
use crate::op_index::{
    adjusted, batches_wf, law_adjust_inside, law_adjust_monotone, law_adjust_round_trip,
    law_adjusted_index_finds_the_operation, padded_len, unadjusted,
};
use crate::pending::MastNodeUse;
use crate::source_graph::FunctionInfo;
use crate::static_metadata::{
    occurrence_functions, raw_asm_op, raw_call_frame, raw_debug_var, raw_inline_call,
    source_metadata, PackageModel,
};

verus! {

// OPERATIONS AND RANGES
// ================================================================================================

/// An index into the operations of a pending node and one into those of the finished node speak of
/// the same operation.
pub open spec fn same_operation(kind: KindModel, from: u32, to: u32) -> bool {
    match kind {
        KindModel::Block(batches) => {
            &&& unadjusted(batches, to as nat) == from
            &&& from < raw_of(batches).len() ==> to < padded_len(batches) && all_ops(
                batches,
            )[to as int] == raw_of(batches)[from as int]
        },
        _ => to == from,
    }
}

/// A range of the operations of a pending node and one of those of the finished node cover the same
/// operations.
pub open spec fn same_range(kind: KindModel, start: u32, end: u32, from: u32, to: u32) -> bool {
    match kind {
        KindModel::Block(batches) => start < end <= raw_of(batches).len() ==> forall|raw: nat|
            raw < raw_of(batches).len() ==> (start <= raw < end <==> from <= #[trigger] adjusted(
                batches,
                raw,
            ) < to),
        _ => from == start && to == end,
    }
}

proof fn lemma_same_operation(kind: KindModel, op_idx: u32)
    requires
        kind_wf(kind),
        final_index(kind, op_idx as nat) <= u32::MAX,
    ensures
        same_operation(kind, op_idx, final_index(kind, op_idx as nat) as u32),
{
    if let KindModel::Block(batches) = kind {
        law_adjust_round_trip(batches, op_idx as nat);
        if op_idx < raw_of(batches).len() {
            assert(batches_wf(batches));
            law_adjusted_index_finds_the_operation(batches, op_idx as nat);
        }
    }
}

proof fn lemma_order_kept(batches: Seq<BatchModel>, a: nat, b: nat)
    ensures
        a < b <==> adjusted(batches, a) < adjusted(batches, b),
{
    if a < b {
        law_adjust_monotone(batches, a, b);
    } else if b < a {
        law_adjust_monotone(batches, b, a);
    }
}

/// The range of an occurrence and the range of a call frame cover the same operations after padding
/// was added as before.
pub proof fn law_ranges_cover_the_same_operations(kind: KindModel, start: u32, end: u32)
    requires
        kind_wf(kind),
        final_source_range(kind, start, end).0 <= u32::MAX,
        final_source_range(kind, start, end).1 <= u32::MAX,
        final_frame_range(kind, start, end).0 <= u32::MAX,
        final_frame_range(kind, start, end).1 <= u32::MAX,
    ensures
        same_range(
            kind,
            start,
            end,
            final_source_range(kind, start, end).0 as u32,
            final_source_range(kind, start, end).1 as u32,
        ),
        same_range(
            kind,
            start,
            end,
            final_frame_range(kind, start, end).0 as u32,
            final_frame_range(kind, start, end).1 as u32,
        ),
{
    lemma_source_range(kind, start, end);
    lemma_frame_range(kind, start, end);
}

proof fn lemma_source_range(kind: KindModel, start: u32, end: u32)
    requires
        kind_wf(kind),
        final_source_range(kind, start, end).0 <= u32::MAX,
        final_source_range(kind, start, end).1 <= u32::MAX,
    ensures
        same_range(
            kind,
            start,
            end,
            final_source_range(kind, start, end).0 as u32,
            final_source_range(kind, start, end).1 as u32,
        ),
{
    if let KindModel::Block(batches) = kind {
        if start < end <= raw_of(batches).len() {
            let (from, to) = final_source_range(kind, start, end);
            assert forall|raw: nat| raw < raw_of(batches).len() implies (start <= raw < end <==> from
                <= #[trigger] adjusted(batches, raw) < to) by {
                lemma_order_kept(batches, raw, start as nat);
                lemma_order_kept(batches, (end - 1) as nat, raw);
            }
        }
    }
}

proof fn lemma_frame_range(kind: KindModel, start: u32, end: u32)
    requires
        kind_wf(kind),
        final_frame_range(kind, start, end).0 <= u32::MAX,
        final_frame_range(kind, start, end).1 <= u32::MAX,
    ensures
        same_range(
            kind,
            start,
            end,
            final_frame_range(kind, start, end).0 as u32,
            final_frame_range(kind, start, end).1 as u32,
        ),
{
    if let KindModel::Block(batches) = kind {
        if start < end <= raw_of(batches).len() {
            assert(batches_wf(batches));
            let (from, to) = final_frame_range(kind, start, end);
            assert forall|raw: nat| raw < raw_of(batches).len() implies (start <= raw < end <==> from
                <= #[trigger] adjusted(batches, raw) < to) by {
                lemma_order_kept(batches, raw, start as nat);
                lemma_order_kept(batches, raw, end as nat);
                law_adjust_inside(batches, raw);
            }
        }
    }
}

// ROWS
// ================================================================================================

/// An entry that may be missing went where a table says.
pub open spec fn went(table: Seq<Option<u32>>, from: Option<u32>, to: Option<u32>) -> bool {
    match from {
        None => to is None,
        Some(i) => to is Some && i < table.len() && table[i as int] == to,
    }
}

pub open spec fn asm_op_kept(
    kind: KindModel,
    tables: TablesModel,
    from: DebugSourceAsmOp,
    to: DebugSourceAsmOp,
) -> bool {
    &&& same_operation(kind, from.op_idx, to.op_idx)
    &&& went(tables.locations, from.location_idx, to.location_idx)
    &&& went(tables.strings, Some(from.context_name_idx), Some(to.context_name_idx))
    &&& went(tables.strings, Some(from.op_name_idx), Some(to.op_name_idx))
    &&& to.num_cycles == from.num_cycles
}

pub open spec fn debug_var_kept(
    kind: KindModel,
    tables: TablesModel,
    from: DebugSourceVar,
    to: DebugSourceVar,
) -> bool {
    &&& same_operation(kind, from.op_idx, to.op_idx)
    &&& went(tables.strings, Some(from.name_idx), Some(to.name_idx))
    &&& went(tables.types, from.type_id, to.type_id)
    &&& went(tables.locations, from.location_idx, to.location_idx)
    &&& to.arg_idx == from.arg_idx
    &&& to.value_idx == from.value_idx
}

pub open spec fn inline_call_kept(
    kind: KindModel,
    tables: TablesModel,
    from: DebugSourceInlineCall,
    to: DebugSourceInlineCall,
) -> bool {
    &&& same_operation(kind, from.op_idx, to.op_idx)
    &&& went(tables.functions, Some(from.callee_idx), Some(to.callee_idx))
    &&& went(tables.locations, Some(from.loc_idx), Some(to.loc_idx))
}

pub open spec fn call_frame_kept(
    kind: KindModel,
    tables: TablesModel,
    from: DebugSourceCallFrame,
    to: DebugSourceCallFrame,
) -> bool {
    &&& same_range(kind, from.op_start, from.op_end, to.op_start, to.op_end)
    &&& went(tables.functions, Some(from.function_idx), Some(to.function_idx))
    &&& to.inherited_inline_calls == from.inherited_inline_calls
}

/// A finished occurrence is a pending one: it stands for the finished node of the same code, over
/// the finished occurrences of the same children, and all its rows are there, in the same order,
/// each at the operation that it spoke of and with the entries of tables that it spoke of.
pub open spec fn occurrence_kept(
    forest: Seq<NodeModel>,
    nodes: Seq<SourceModel>,
    ids: Seq<Option<u32>>,
    tables: TablesModel,
    from: SourceModel,
    to: SourceModel,
) -> bool {
    let kind = forest[to.exec_node as int].kind;
    &&& ids[from.exec_node as int] == Some(to.exec_node)
    &&& to.children.len() == from.children.len()
    &&& forall|j: int|
        0 <= j < to.children.len() ==> source_id(nodes, ids, from.children[j] as nat) == Some(
            #[trigger] to.children[j],
        )
    &&& same_range(kind, from.op_start, from.op_end, to.op_start, to.op_end)
    &&& to.asm_ops.len() == from.asm_ops.len()
    &&& forall|j: int|
        0 <= j < to.asm_ops.len() ==> asm_op_kept(
            kind,
            tables,
            from.asm_ops[j],
            #[trigger] to.asm_ops[j],
        )
    &&& to.debug_vars.len() == from.debug_vars.len()
    &&& forall|j: int|
        0 <= j < to.debug_vars.len() ==> debug_var_kept(
            kind,
            tables,
            from.debug_vars[j],
            #[trigger] to.debug_vars[j],
        )
    &&& to.inline_calls.len() == from.inline_calls.len()
    &&& forall|j: int|
        0 <= j < to.inline_calls.len() ==> inline_call_kept(
            kind,
            tables,
            from.inline_calls[j],
            #[trigger] to.inline_calls[j],
        )
    &&& to.call_frames.len() == from.call_frames.len()
    &&& forall|j: int|
        0 <= j < to.call_frames.len() ==> call_frame_kept(
            kind,
            tables,
            from.call_frames[j],
            #[trigger] to.call_frames[j],
        )
}

proof fn lemma_placed_items(
    forest: Seq<NodeModel>,
    nodes: Seq<SourceModel>,
    ids: Seq<Option<u32>>,
    tables: TablesModel,
    k: nat,
)
    requires
        k <= nodes.len(),
        placed_upto(forest, nodes, ids, tables, k) is Ok,
    ensures
        ({
            let placed = placed_upto(forest, nodes, ids, tables, k)->Ok_0;
            &&& placed.len() == live_before(nodes, ids, k)
            &&& forall|i: int|
                0 <= i < k && is_live(ids, #[trigger] nodes[i]) ==> placed_source(
                    forest,
                    nodes,
                    ids,
                    tables,
                    i as nat,
                ) == Ok::<SourceModel, MastForestBuilderError>(
                    placed[live_before(nodes, ids, i as nat) as int],
                )
        }),
    decreases k,
{
    if k > 0 {
        lemma_placed_items(forest, nodes, ids, tables, (k - 1) as nat);
        let before = placed_upto(forest, nodes, ids, tables, (k - 1) as nat)->Ok_0;
        let placed = placed_upto(forest, nodes, ids, tables, k)->Ok_0;
        assert forall|i: int| 0 <= i < k && is_live(ids, #[trigger] nodes[i]) implies placed_source(
            forest,
            nodes,
            ids,
            tables,
            i as nat,
        ) == Ok::<SourceModel, MastForestBuilderError>(
            placed[live_before(nodes, ids, i as nat) as int],
        ) by {
            if i < k - 1 {
                lemma_live_monotone(nodes, ids, (i + 1) as nat, (k - 1) as nat);
                let at = live_before(nodes, ids, i as nat) as int;
                assert(placed[at] == before[at]);
            }
        }
    }
}

proof fn lemma_calls_items(
    forest: Seq<NodeModel>,
    nodes: Seq<SourceModel>,
    ids: Seq<Option<u32>>,
    tables: TablesModel,
    placed: Seq<SourceModel>,
    k: nat,
    i: nat,
)
    requires
        k <= nodes.len(),
        i < nodes.len(),
        is_live(ids, nodes[i as int]),
        placed.len() == live_before(nodes, ids, nodes.len()),
        with_calls(forest, nodes, ids, tables, placed, k) is Ok,
    ensures
        ({
            let done = with_calls(forest, nodes, ids, tables, placed, k)->Ok_0;
            let at = live_before(nodes, ids, i) as int;
            &&& at < placed.len()
            &&& done.len() == placed.len()
            &&& i >= k ==> done[at] == placed[at]
            &&& i < k ==> (final_calls(forest, nodes, ids, tables, i) matches Ok((calls, frames))
                && done[at] == (SourceModel {
                inline_calls: calls,
                call_frames: frames,
                ..placed[at]
            }))
        }),
    decreases k,
{
    lemma_live_monotone(nodes, ids, i + 1, nodes.len());
    if k > 0 {
        lemma_calls_items(forest, nodes, ids, tables, placed, (k - 1) as nat, i);
        if is_live(ids, nodes[k - 1]) {
            let other = live_before(nodes, ids, (k - 1) as nat) as int;
            lemma_live_monotone(nodes, ids, k, nodes.len());
            if i < k - 1 {
                lemma_live_monotone(nodes, ids, i + 1, (k - 1) as nat);
            } else if i > k - 1 {
                lemma_live_monotone(nodes, ids, k, i);
            }
        }
    }
}

proof fn lemma_occurrence_kept(
    forest: Seq<NodeModel>,
    nodes: Seq<SourceModel>,
    ids: Seq<Option<u32>>,
    tables: TablesModel,
    i: nat,
    placed: SourceModel,
    calls: Seq<DebugSourceInlineCall>,
    frames: Seq<DebugSourceCallFrame>,
)
    requires
        i < nodes.len(),
        is_live(ids, nodes[i as int]),
        kind_wf(forest[final_id(ids, nodes[i as int].exec_node)->0 as int].kind),
        rows_fit(forest[final_id(ids, nodes[i as int].exec_node)->0 as int].kind, nodes[i as int]),
        placed_source(forest, nodes, ids, tables, i) == Ok::<SourceModel, MastForestBuilderError>(
            placed,
        ),
        final_calls(forest, nodes, ids, tables, i) == Ok::<
            (Seq<DebugSourceInlineCall>, Seq<DebugSourceCallFrame>),
            MastForestBuilderError,
        >((calls, frames)),
    ensures
        occurrence_kept(
            forest,
            nodes,
            ids,
            tables,
            nodes[i as int],
            SourceModel { inline_calls: calls, call_frames: frames, ..placed },
        ),
{
    let from = nodes[i as int];
    let to = SourceModel { inline_calls: calls, call_frames: frames, ..placed };
    let kind = forest[to.exec_node as int].kind;
    lemma_collected_items(from.children, final_child(nodes, ids, i as u32), from.children.len());
    lemma_collected_items(from.asm_ops, final_asm_op(kind, tables), from.asm_ops.len());
    lemma_collected_items(from.debug_vars, final_debug_var(kind, tables), from.debug_vars.len());
    lemma_collected_items(
        from.inline_calls,
        final_inline_call(kind, tables),
        from.inline_calls.len(),
    );
    lemma_collected_items(from.call_frames, final_call_frame(kind, tables), from.call_frames.len());
    lemma_source_range(kind, from.op_start, from.op_end);
    let children = collect_all(from.children, final_child(nodes, ids, i as u32))->Ok_0;
    let asm_ops = collect_all(from.asm_ops, final_asm_op(kind, tables))->Ok_0;
    let debug_vars = collect_all(from.debug_vars, final_debug_var(kind, tables))->Ok_0;
    assert(to.children == children && to.asm_ops == asm_ops && to.debug_vars == debug_vars);
    assert(calls == collect_all(from.inline_calls, final_inline_call(kind, tables))->Ok_0);
    assert(frames == collect_all(from.call_frames, final_call_frame(kind, tables))->Ok_0);
    assert forall|j: int| 0 <= j < to.children.len() implies source_id(
        nodes,
        ids,
        from.children[j] as nat,
    ) == Some(#[trigger] to.children[j]) by {
        assert(final_child(nodes, ids, i as u32)(from.children[j]) == Ok::<
            u32,
            MastForestBuilderError,
        >(children[j]));
    }
    assert forall|j: int| 0 <= j < to.asm_ops.len() implies asm_op_kept(
        kind,
        tables,
        from.asm_ops[j],
        #[trigger] to.asm_ops[j],
    ) by {
        assert(final_asm_op(kind, tables)(from.asm_ops[j]) == Ok::<DebugSourceAsmOp, MissingIndex>(
            asm_ops[j],
        ));
        lemma_same_operation(kind, from.asm_ops[j].op_idx);
    }
    assert forall|j: int| 0 <= j < to.debug_vars.len() implies debug_var_kept(
        kind,
        tables,
        from.debug_vars[j],
        #[trigger] to.debug_vars[j],
    ) by {
        assert(final_debug_var(kind, tables)(from.debug_vars[j]) == Ok::<DebugSourceVar, MissingIndex>(
            debug_vars[j],
        ));
        lemma_same_operation(kind, from.debug_vars[j].op_idx);
    }
    assert forall|j: int| 0 <= j < to.inline_calls.len() implies inline_call_kept(
        kind,
        tables,
        from.inline_calls[j],
        #[trigger] to.inline_calls[j],
    ) by {
        assert(final_inline_call(kind, tables)(from.inline_calls[j]) == Ok::<DebugSourceInlineCall, MissingIndex>(
            calls[j],
        ));
        lemma_same_operation(kind, from.inline_calls[j].op_idx);
    }
    assert forall|j: int| 0 <= j < to.call_frames.len() implies call_frame_kept(
        kind,
        tables,
        from.call_frames[j],
        #[trigger] to.call_frames[j],
    ) by {
        let frame = from.call_frames[j];
        assert(final_call_frame(kind, tables)(frame) == Ok::<DebugSourceCallFrame, MissingIndex>(
            frames[j],
        ));
        lemma_frame_range(kind, frame.op_start, frame.op_end);
    }
}

/// The source graph of a finished forest is that of its builder, for the code that was kept: every
/// occurrence of it is there, in the same order, with its children, its range and all its rows,
/// each at the operation that it spoke of; there is no other.
pub proof fn law_finished_occurrences_are_kept(
    b: BuilderModel,
    tables: TablesModel,
    forest: ForestModel,
    graph: FinalSourceGraph,
    ids: Seq<Option<u32>>,
)
    requires
        b.wf(),
        finished_over(b, tables, forest, graph, ids),
    ensures
        graph.nodes@.len() == live_before(b.graph.nodes, ids, b.graph.nodes.len()),
        forall|i: int|
            0 <= i < b.graph.nodes.len() && is_live(ids, #[trigger] b.graph.nodes[i]) ==> {
                &&& graph.source_id_by_ref@[i] == Some(
                    live_before(b.graph.nodes, ids, i as nat) as u32,
                )
                &&& occurrence_kept(
                    forest.nodes,
                    b.graph.nodes,
                    ids,
                    tables,
                    b.graph.nodes[i],
                    source_models(graph.nodes@)[live_before(b.graph.nodes, ids, i as nat) as int],
                )
            },
{
    let nodes = b.graph.nodes;
    let placed = placed_upto(forest.nodes, nodes, ids, tables, nodes.len())->Ok_0;
    lemma_placed_items(forest.nodes, nodes, ids, tables, nodes.len());
    lemma_misfits(b, forest, ids);
    if exists|i: int| 0 <= i < nodes.len() && is_live(ids, #[trigger] nodes[i]) {
        let i = choose|i: int| 0 <= i < nodes.len() && is_live(ids, #[trigger] nodes[i]);
        lemma_calls_items(forest.nodes, nodes, ids, tables, placed, nodes.len(), i as nat);
    } else {
        lemma_nothing_live(forest.nodes, nodes, ids, tables, placed, nodes.len());
    }
    assert forall|i: int| 0 <= i < nodes.len() && is_live(ids, #[trigger] nodes[i]) implies {
        &&& graph.source_id_by_ref@[i] == Some(live_before(nodes, ids, i as nat) as u32)
        &&& occurrence_kept(
            forest.nodes,
            nodes,
            ids,
            tables,
            nodes[i],
            source_models(graph.nodes@)[live_before(nodes, ids, i as nat) as int],
        )
    } by {
        let at = live_before(nodes, ids, i as nat) as int;
        lemma_calls_items(forest.nodes, nodes, ids, tables, placed, nodes.len(), i as nat);
        let (calls, frames) = final_calls(forest.nodes, nodes, ids, tables, i as nat)->Ok_0;
        assert(is_misfit(forest.nodes, nodes, ids, i) == out_of_range(b, i));
        let r = nodes[i].exec_node as int;
        assert(r < b.nodes.len());
        assert(ids[r] is Some);
        assert(forest.nodes[ids[r]->0 as int].wf());
        lemma_occurrence_kept(
            forest.nodes,
            nodes,
            ids,
            tables,
            i as nat,
            placed[at],
            calls,
            frames,
        );
        assert(source_id(nodes, ids, i as nat) == graph.source_id_by_ref@[i]);
    }
}

proof fn lemma_nothing_live(
    forest: Seq<NodeModel>,
    nodes: Seq<SourceModel>,
    ids: Seq<Option<u32>>,
    tables: TablesModel,
    placed: Seq<SourceModel>,
    k: nat,
)
    requires
        k <= nodes.len(),
        forall|i: int| 0 <= i < nodes.len() ==> !is_live(ids, #[trigger] nodes[i]),
    ensures
        with_calls(forest, nodes, ids, tables, placed, k) == Ok::<
            Seq<SourceModel>,
            MastForestBuilderError,
        >(placed),
    decreases k,
{
    if k > 0 {
        lemma_nothing_live(forest, nodes, ids, tables, placed, (k - 1) as nat);
    }
}

/// The roots of the source graph are the finished ones of those that were recorded, in order,
/// without those whose code was not kept.
pub proof fn law_finished_roots_are_kept(
    nodes: Seq<SourceModel>,
    ids: Seq<Option<u32>>,
    roots: Seq<u32>,
    k: nat,
)
    requires
        k <= roots.len(),
    ensures
        forall|id: u32|
            final_roots(nodes, ids, roots, k).contains(id) <==> exists|j: int|
                0 <= j < k && #[trigger] source_id(nodes, ids, roots[j] as nat) == Some(id),
        (forall|j: int| 0 <= j < k ==> #[trigger] source_id(nodes, ids, roots[j] as nat) is Some)
            ==> final_roots(nodes, ids, roots, k).len() == k && forall|j: int|
            0 <= j < k ==> Some(#[trigger] final_roots(nodes, ids, roots, k)[j]) == source_id(
                nodes,
                ids,
                roots[j] as nat,
            ),
    decreases k,
{
    if k > 0 {
        law_finished_roots_are_kept(nodes, ids, roots, (k - 1) as nat);
        let before = final_roots(nodes, ids, roots, (k - 1) as nat);
        let all = final_roots(nodes, ids, roots, k);
        assert forall|id: u32| all.contains(id) <==> exists|j: int|
            0 <= j < k && #[trigger] source_id(nodes, ids, roots[j] as nat) == Some(id) by {
            if all.contains(id) {
                let p = all.index_of(id);
                if p < before.len() {
                    assert(before[p] == id);
                    assert(before.contains(id));
                } else {
                    assert(source_id(nodes, ids, roots[k - 1] as nat) == Some(id));
                }
            }
            if exists|j: int|
                0 <= j < k && #[trigger] source_id(nodes, ids, roots[j] as nat) == Some(id) {
                let j = choose|j: int|
                    0 <= j < k && #[trigger] source_id(nodes, ids, roots[j] as nat) == Some(id);
                if j < k - 1 {
                    assert(before.contains(id));
                    assert(all[before.index_of(id)] == id);
                } else {
                    assert(all[all.len() - 1] == id);
                }
            }
        }
        if forall|j: int| 0 <= j < k ==> #[trigger] source_id(nodes, ids, roots[j] as nat) is Some {
            assert(source_id(nodes, ids, roots[k - 1] as nat) is Some);
            assert forall|j: int| 0 <= j < k implies Some(#[trigger] all[j]) == source_id(
                nodes,
                ids,
                roots[j] as nat,
            ) by {
                if j < k - 1 {
                    assert(all[j] == before[j]);
                }
            }
        }
    }
}

// LINKING
// ================================================================================================

/// Linking undoes finishing: the rows of an occurrence of a library that was finished are linked
/// in the same number and order, at the indices that they had before the library was finished, and
/// say the same of cycles, arguments and values.
pub proof fn law_linking_gives_rows_back(
    forest: Seq<NodeModel>,
    nodes: Seq<SourceModel>,
    ids: Seq<Option<u32>>,
    tables: TablesModel,
    from: SourceModel,
    package: PackageModel,
    source: u32,
    entries: TablesModel,
)
    requires
        source < package.nodes.len(),
        occurrence_kept(forest, nodes, ids, tables, from, package.nodes[source as int]),
        source_metadata(forest, package, entries, source) is Ok,
    ensures
        ({
            let linked = source_metadata(forest, package, entries, source)->Ok_0;
            &&& linked.asm_ops.len() == from.asm_ops.len()
            &&& forall|j: int|
                0 <= j < from.asm_ops.len() ==> (#[trigger] linked.asm_ops[j]).op_idx
                    == from.asm_ops[j].op_idx && linked.asm_ops[j].num_cycles
                    == from.asm_ops[j].num_cycles
            &&& linked.debug_vars.len() == from.debug_vars.len()
            &&& forall|j: int|
                0 <= j < from.debug_vars.len() ==> (#[trigger] linked.debug_vars[j]).op_idx
                    == from.debug_vars[j].op_idx && linked.debug_vars[j].arg_idx
                    == from.debug_vars[j].arg_idx && linked.debug_vars[j].value_idx
                    == from.debug_vars[j].value_idx
            &&& linked.inline_calls.len() == from.inline_calls.len()
            &&& forall|j: int|
                0 <= j < from.inline_calls.len() ==> (#[trigger] linked.inline_calls[j]).op_idx
                    == from.inline_calls[j].op_idx
            &&& linked.call_frames.len() == from.call_frames.len()
            &&& forall|j: int|
                0 <= j < from.call_frames.len() ==> (
                #[trigger] linked.call_frames[j]).inherited_inline_calls
                    == from.call_frames[j].inherited_inline_calls
        }),
{
    let to = package.nodes[source as int];
    let kind = forest[to.exec_node as int].kind;
    let linked = source_metadata(forest, package, entries, source)->Ok_0;
    lemma_collected_items(to.asm_ops, raw_asm_op(kind, entries), to.asm_ops.len());
    lemma_collected_items(to.debug_vars, raw_debug_var(kind, entries), to.debug_vars.len());
    lemma_collected_items(to.inline_calls, raw_inline_call(kind, entries), to.inline_calls.len());
    lemma_collected_items(to.call_frames, raw_call_frame(kind, entries), to.call_frames.len());
    assert(linked.asm_ops == collect_all(to.asm_ops, raw_asm_op(kind, entries))->Ok_0);
    assert(linked.debug_vars == collect_all(to.debug_vars, raw_debug_var(kind, entries))->Ok_0);
    assert(linked.inline_calls == collect_all(
        to.inline_calls,
        raw_inline_call(kind, entries),
    )->Ok_0);
    assert(linked.call_frames == collect_all(to.call_frames, raw_call_frame(kind, entries))->Ok_0);
    assert forall|j: int| 0 <= j < from.asm_ops.len() implies (#[trigger] linked.asm_ops[j]).op_idx
        == from.asm_ops[j].op_idx && linked.asm_ops[j].num_cycles == from.asm_ops[j].num_cycles by {
        assert(asm_op_kept(kind, tables, from.asm_ops[j], to.asm_ops[j]));
        assert(raw_asm_op(kind, entries)(to.asm_ops[j]) == Ok::<DebugSourceAsmOp, MissingIndex>(
            linked.asm_ops[j],
        ));
    }
    assert forall|j: int| 0 <= j < from.debug_vars.len() implies (
    #[trigger] linked.debug_vars[j]).op_idx == from.debug_vars[j].op_idx
        && linked.debug_vars[j].arg_idx == from.debug_vars[j].arg_idx
        && linked.debug_vars[j].value_idx == from.debug_vars[j].value_idx by {
        assert(debug_var_kept(kind, tables, from.debug_vars[j], to.debug_vars[j]));
        assert(raw_debug_var(kind, entries)(to.debug_vars[j]) == Ok::<DebugSourceVar, MissingIndex>(
            linked.debug_vars[j],
        ));
    }
    assert forall|j: int| 0 <= j < from.inline_calls.len() implies (
    #[trigger] linked.inline_calls[j]).op_idx == from.inline_calls[j].op_idx by {
        assert(inline_call_kept(kind, tables, from.inline_calls[j], to.inline_calls[j]));
        assert(raw_inline_call(kind, entries)(to.inline_calls[j]) == Ok::<
            DebugSourceInlineCall,
            MissingIndex,
        >(linked.inline_calls[j]));
    }
    assert forall|j: int| 0 <= j < from.call_frames.len() implies (
    #[trigger] linked.call_frames[j]).inherited_inline_calls
        == from.call_frames[j].inherited_inline_calls by {
        assert(call_frame_kept(kind, tables, from.call_frames[j], to.call_frames[j]));
        assert(raw_call_frame(kind, entries)(to.call_frames[j]) == Ok::<
            DebugSourceCallFrame,
            MissingIndex,
        >(linked.call_frames[j]));
    }
}

/// The functions of a linked occurrence are those that were recorded at it, and those that were
/// recorded nowhere but have its code, as far as they are among the functions that were linked.
pub proof fn law_linked_functions_belong(
    functions: Seq<FunctionInfo>,
    tables: TablesModel,
    source: u32,
    mast_root: Word,
    k: nat,
    x: u32,
)
    requires
        k <= functions.len() <= u32::MAX,
    ensures
        occurrence_functions(functions, tables, source, mast_root, k).contains(x) <==> exists|i: int|
            0 <= i < k && lookup(tables.functions, i as u32) == Some(x) && match (
            #[trigger] functions[i]).source_node {
                Some(at) => at == source,
                None => functions[i].mast_root == mast_root,
            },
    decreases k,
{
    if k > 0 {
        law_linked_functions_belong(functions, tables, source, mast_root, (k - 1) as nat, x);
        let before = occurrence_functions(functions, tables, source, mast_root, (k - 1) as nat);
        let all = occurrence_functions(functions, tables, source, mast_root, k);
        if all.len() > before.len() {
            assert(all =~= before.push(all.last()));
            assert(all[before.len() as int] == all.last());
            if before.contains(x) {
                assert(all[before.index_of(x)] == x);
            }
            if all.contains(x) && x != all.last() {
                assert(before[all.index_of(x)] == x);
            }
        }
    }
}

// FUNCTIONS AND MERGED BLOCKS
// ================================================================================================

/// The functions of a finished graph are those whose occurrence was kept, each with the finished
/// occurrence and under the index that it went to.
pub proof fn law_finished_functions_are_kept(
    nodes: Seq<SourceModel>,
    ids: Seq<Option<u32>>,
    tables: TablesModel,
    functions: Seq<Option<u32>>,
    k: nat,
    x: (u32, u32),
)
    requires
        k <= functions.len() <= u32::MAX,
    ensures
        final_functions(nodes, ids, tables, functions, k).contains(x) <==> exists|i: int|
            0 <= i < k && ((#[trigger] functions[i]) matches Some(source) && source_id(
                nodes,
                ids,
                source as nat,
            ) == Some(x.1) && x.0 == lookup(tables.functions, i as u32)->0),
    decreases k,
{
    if k > 0 {
        law_finished_functions_are_kept(nodes, ids, tables, functions, (k - 1) as nat, x);
        let before = final_functions(nodes, ids, tables, functions, (k - 1) as nat);
        let all = final_functions(nodes, ids, tables, functions, k);
        if all.len() > before.len() {
            assert(all =~= before.push(all.last()));
            assert(all[before.len() as int] == all.last());
            if before.contains(x) {
                assert(all[before.index_of(x)] == x);
            }
            if all.contains(x) && x != all.last() {
                assert(before[all.index_of(x)] == x);
            }
        }
    }
}

/// Rows stay with their operations when blocks become one: those of each block come behind those of
/// the blocks before it, and speak of the same operations among all of them.
pub proof fn law_merged_rows_follow_their_operations(
    b: BuilderModel,
    uses: Seq<MastNodeUse>,
    k: nat,
    i: int,
)
    requires
        0 < k <= uses.len(),
        run_ops(b, uses, k).len() <= u32::MAX,
    ensures
        ({
            let all = run_rows(b, uses, k);
            let before = run_rows(b, uses, (k - 1) as nat);
            let block = b.graph.nodes[uses[k - 1].source_ref.0 as int];
            let ops = use_ops(b, uses[k - 1]);
            &&& all.asm_ops.len() == before.asm_ops.len() + block.asm_ops.len()
            &&& all.asm_ops.take(before.asm_ops.len() as int) == before.asm_ops
            &&& 0 <= i < block.asm_ops.len() && block.asm_ops[i].op_idx < ops.len() ==> {
                let row = all.asm_ops[before.asm_ops.len() + i];
                &&& run_ops(b, uses, k)[row.op_idx as int] == ops[block.asm_ops[i].op_idx as int]
                &&& row.op_idx == run_ops(b, uses, (k - 1) as nat).len() + block.asm_ops[i].op_idx
                &&& row == (DebugSourceAsmOp { op_idx: row.op_idx, ..block.asm_ops[i] })
            }
            &&& all.debug_vars.len() == before.debug_vars.len() + block.debug_vars.len()
            &&& all.debug_vars.take(before.debug_vars.len() as int) == before.debug_vars
            &&& 0 <= i < block.debug_vars.len() && block.debug_vars[i].op_idx < ops.len() ==> {
                let row = all.debug_vars[before.debug_vars.len() + i];
                &&& run_ops(b, uses, k)[row.op_idx as int] == ops[block.debug_vars[i].op_idx as int]
                &&& row.op_idx == run_ops(b, uses, (k - 1) as nat).len()
                    + block.debug_vars[i].op_idx
                &&& row == (DebugSourceVar { op_idx: row.op_idx, ..block.debug_vars[i] })
            }
            &&& all.inline_calls.len() == before.inline_calls.len() + block.inline_calls.len()
            &&& all.inline_calls.take(before.inline_calls.len() as int) == before.inline_calls
            &&& 0 <= i < block.inline_calls.len() && block.inline_calls[i].op_idx < ops.len() ==> {
                let row = all.inline_calls[before.inline_calls.len() + i];
                &&& run_ops(b, uses, k)[row.op_idx as int]
                    == ops[block.inline_calls[i].op_idx as int]
                &&& row.op_idx == run_ops(b, uses, (k - 1) as nat).len()
                    + block.inline_calls[i].op_idx
                &&& row == (DebugSourceInlineCall { op_idx: row.op_idx, ..block.inline_calls[i] })
            }
            &&& all.call_frames.len() == before.call_frames.len() + block.call_frames.len()
            &&& all.call_frames.take(before.call_frames.len() as int) == before.call_frames
            &&& 0 <= i < block.call_frames.len() && block.op_start <= block.call_frames[i].op_start
                <= block.call_frames[i].op_end && block.call_frames[i].op_end - block.op_start
                <= ops.len() ==> {
                let frame = all.call_frames[before.call_frames.len() + i];
                let at = run_ops(b, uses, (k - 1) as nat).len();
                &&& frame.op_start == at + (block.call_frames[i].op_start - block.op_start)
                &&& frame.op_end - frame.op_start == block.call_frames[i].op_end
                    - block.call_frames[i].op_start
                &&& frame.function_idx == block.call_frames[i].function_idx
                &&& frame.inherited_inline_calls == block.call_frames[i].inherited_inline_calls
            }
        }),
{
    let all = run_rows(b, uses, k);
    let before = run_rows(b, uses, (k - 1) as nat);
    assert(all.asm_ops.take(before.asm_ops.len() as int) =~= before.asm_ops);
    assert(all.debug_vars.take(before.debug_vars.len() as int) =~= before.debug_vars);
    assert(all.inline_calls.take(before.inline_calls.len() as int) =~= before.inline_calls);
    assert(all.call_frames.take(before.call_frames.len() as int) =~= before.call_frames);
}

/// The occurrence of a block that became part of another keeps its length and its rows: each stands
/// as far from the start of the occurrence as before.
pub proof fn law_moved_occurrences_keep_their_rows(node: SourceModel, exec: u32, to: u32, i: int)
    requires
        node.op_start <= node.op_end,
        node.op_end - node.op_start + to <= u32::MAX,
    ensures
        ({
            let moved = moved_occurrence(node, exec, to);
            &&& moved.exec_node == exec
            &&& moved.op_start == to
            &&& moved.op_end - moved.op_start == node.op_end - node.op_start
            &&& moved.asm_ops.len() == node.asm_ops.len()
            &&& 0 <= i < node.asm_ops.len() && node.op_start <= node.asm_ops[i].op_idx
                < node.op_end ==> moved.asm_ops[i].op_idx - moved.op_start == node.asm_ops[i].op_idx
                - node.op_start
            &&& moved.debug_vars.len() == node.debug_vars.len()
            &&& 0 <= i < node.debug_vars.len() && node.op_start <= node.debug_vars[i].op_idx
                < node.op_end ==> moved.debug_vars[i].op_idx - moved.op_start
                == node.debug_vars[i].op_idx - node.op_start
            &&& moved.inline_calls.len() == node.inline_calls.len()
            &&& 0 <= i < node.inline_calls.len() && node.op_start <= node.inline_calls[i].op_idx
                < node.op_end ==> moved.inline_calls[i].op_idx - moved.op_start
                == node.inline_calls[i].op_idx - node.op_start
            &&& moved.call_frames.len() == node.call_frames.len()
            &&& 0 <= i < node.call_frames.len() && node.op_start <= node.call_frames[i].op_start
                && node.op_start <= node.call_frames[i].op_end <= node.op_end
                && node.call_frames[i].op_start <= node.op_end ==> moved.call_frames[i].op_start
                - moved.op_start == node.call_frames[i].op_start - node.op_start
                && moved.call_frames[i].op_end - moved.op_start == node.call_frames[i].op_end
                - node.op_start
        }),
{
}

/// The range of an occurrence starts at its first operation and ends behind its last one, padding
/// left out; a call frame ends where the next one starts, and one that ends with its block covers
/// the padding behind it. A range of nothing stays where it is.
pub proof fn law_ranges_are_tight(batches: Seq<BatchModel>, start: u32, end: u32, next: u32)
    requires
        start < end <= raw_of(batches).len() <= u32::MAX,
        end <= next <= raw_of(batches).len(),
    ensures
        ({
            let kind = KindModel::Block(batches);
            let (from, to) = final_source_range(kind, start, end);
            let (first, last) = final_frame_range(kind, start, end);
            &&& from == final_index(kind, start as nat)
            &&& to == final_index(kind, (end - 1) as nat) + 1
            &&& first == final_index(kind, start as nat)
            &&& end < next ==> last == final_frame_range(kind, end, next).0
            &&& end == raw_of(batches).len() ==> last == all_ops(batches).len()
            &&& final_source_range(kind, start, start) == (start as nat, start as nat)
            &&& final_frame_range(kind, start, start) == (start as nat, start as nat)
        }),
{
}

/// Linking gives the ranges back that an occurrence and its call frames had before they were finished.
pub proof fn law_linking_gives_ranges_back(
    forest: Seq<NodeModel>,
    package: PackageModel,
    source: u32,
    entries: TablesModel,
    start: u32,
    end: u32,
    j: int,
    first: u32,
    last: u32,
)
    requires
        source < package.nodes.len(),
        source_metadata(forest, package, entries, source) is Ok,
        start <= end,
        first <= last,
        ({
            let node = package.nodes[source as int];
            let kind = forest[node.exec_node as int].kind;
            &&& final_source_range(kind, start, end) == (node.op_start as nat, node.op_end as nat)
            &&& 0 <= j < node.call_frames.len()
            &&& final_frame_range(kind, first, last) == (
                node.call_frames[j].op_start as nat,
                node.call_frames[j].op_end as nat,
            )
            &&& kind matches KindModel::Block(batches) ==> batches_wf(batches) && last <= raw_of(
                batches,
            ).len() && padded_len(batches) <= u32::MAX
        }),
    ensures
        ({
            let linked = source_metadata(forest, package, entries, source)->Ok_0;
            &&& linked.op_start == start
            &&& linked.op_end == end
            &&& linked.call_frames[j].op_start == first
            &&& linked.call_frames[j].op_end == last
            &&& went(
                entries.functions,
                Some(package.nodes[source as int].call_frames[j].function_idx),
                Some(linked.call_frames[j].function_idx),
            )
        }),
{
    let node = package.nodes[source as int];
    let kind = forest[node.exec_node as int].kind;
    let linked = source_metadata(forest, package, entries, source)->Ok_0;
    crate::static_metadata::law_source_range_round_trip(kind, start, end);
    crate::static_metadata::law_frame_range_round_trip(kind, first, last);
    lemma_collected_items(node.call_frames, raw_call_frame(kind, entries), node.call_frames.len());
    assert(linked.call_frames == collect_all(node.call_frames, raw_call_frame(kind, entries))->Ok_0);
    assert(raw_call_frame(kind, entries)(node.call_frames[j]) == Ok::<
        DebugSourceCallFrame,
        MissingIndex,
    >(linked.call_frames[j]));
}

} // verus!
