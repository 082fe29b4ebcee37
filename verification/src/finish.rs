//! Finishing a forest: what is reachable from the procedure roots is kept, in dense order, with the
//! source graph that belongs to it.

use vstd::prelude::*;

use crate::builder::{node_ok, BuilderModel, MastForestBuilder};
use crate::debug_info::{lookup, source_models, DebugInfoTableRemapping, SourceModel, TablesModel};
use crate::dense::{duplicate_external, is_move, late_node, moved, moved_node};
use crate::felt::Word;
use crate::finalizer::{
    final_functions, final_id, final_roots, finalize_source_graph, find_misfit, finished,
    function_occurrence, graph_wf, ids_upto, is_live, is_misfit, kind_wf, materialize_live_nodes, materialized_upto, placed_upto,
    rows_fit, source_id, with_calls, FinalSourceGraph, MastForestBuilderError, SourceGraphParts,
};
use crate::forest::{dense, AdviceMap, ForestModel, MastForest, MastForestError, MAX_NODES};
use crate::graph::{
    child_lists, children_first, has_cycle, is_post_order, law_post_order_acyclic,
    law_post_order_complete, post_order, reaches,
};
use crate::node::{children_below, node_models, KindModel, MastNodeId, NodeModel};
use crate::pending::{
    pending_models, MastNodeRef, PendingKind, PendingMastNode, PendingModel, SourceNodeRef,
};
use crate::debug_types::DebugTypeError;
use crate::registry::{no_tables, DebugTables, DebugTablesModel};
use crate::source_graph::FunctionInfo;
use crate::table_import::{
    functions_closed, import_crowded, is_import, lemma_imported_functions, tables_closed,
};

verus! {

/// The children of each pending node.
pub open spec fn pending_children(nodes: Seq<PendingModel>) -> Seq<Seq<u32>> {
    Seq::new(nodes.len(), |i: int| raw_refs(nodes[i].child_refs))
}

pub open spec fn raw_refs(refs: Seq<MastNodeRef>) -> Seq<u32> {
    Seq::new(refs.len(), |i: int| refs[i].0)
}

/// What a pending node executes, as far as operation indices go.
pub open spec fn shape_of(kind: PendingKind) -> KindModel {
    match kind {
        PendingKind::BasicBlock(batches) => KindModel::Block(batches),
        _ => KindModel::Dyn,
    }
}

/// The occurrences of functions.
pub open spec fn function_sources(functions: Seq<FunctionInfo>) -> Seq<Option<u32>> {
    Seq::new(functions.len(), |i: int| functions[i].source_node)
}

/// The code of an occurrence is kept, and its rows do not fit.
pub open spec fn out_of_range(b: BuilderModel, s: int) -> bool {
    let exec_node = b.graph.nodes[s].exec_node;
    reaches(pending_children(b.nodes), raw_refs(b.roots), exec_node) && !rows_fit(
        shape_of(b.nodes[exec_node as int].kind),
        b.graph.nodes[s],
    )
}

/// The rows of kept occurrences speak of operations whose padded indices fit in four bytes.
pub open spec fn rows_in_range(b: BuilderModel) -> bool {
    forall|s: int| 0 <= s < b.graph.nodes.len() ==> !#[trigger] out_of_range(b, s)
}

/// Every function has a place in the finished tables.
pub open spec fn buildable(b: BuilderModel, tables: TablesModel) -> bool {
    &&& b.graph.functions.len() <= u32::MAX
    &&& forall|i: int|
        0 <= i < b.graph.functions.len() && (#[trigger] b.graph.functions[i]).source_node is Some
            ==> lookup(tables.functions, i as u32) is Some
}

/// A finished forest, its source graph, and where the nodes went.
pub struct FinishedForest {
    pub mast_forest: MastForest,
    pub graph: FinalSourceGraph,
    pub node_id_by_ref: Vec<Option<u32>>,
}

/// A finished forest with its source graph and debug information, and where the nodes went.
pub struct BuiltMastForest {
    pub mast_forest: MastForest,
    pub graph: FinalSourceGraph,
    pub tables: DebugTables,
    pub functions: Vec<FunctionInfo>,
    pub node_id_by_ref: Vec<Option<u32>>,
}

/// What is kept of a builder, in terms of tables whose entries went where `tables` says.
pub open spec fn finished_over(
    b: BuilderModel,
    tables: TablesModel,
    forest: ForestModel,
    graph: FinalSourceGraph,
    ids: Seq<Option<u32>>,
) -> bool {
    &&& forest.wf()
    &&& dense(forest.nodes)
    &&& rows_in_range(b)
    &&& forest_of(b, forest, ids)
    &&& placed_upto(
        forest.nodes,
        b.graph.nodes,
        ids,
        tables,
        b.graph.nodes.len(),
    ) matches Ok(placed) && with_calls(
        forest.nodes,
        b.graph.nodes,
        ids,
        tables,
        placed,
        b.graph.nodes.len(),
    ) == Ok::<Seq<SourceModel>, MastForestBuilderError>(source_models(graph.nodes@))
    &&& graph.roots@ == final_roots(b.graph.nodes, ids, b.graph.roots, b.graph.roots.len())
    &&& graph.function_sources@ == final_functions(
        b.graph.nodes,
        ids,
        tables,
        function_sources(b.graph.functions),
        b.graph.functions.len(),
    )
    &&& graph.source_id_by_ref@.len() == b.graph.nodes.len()
    &&& forall|i: int|
        0 <= i < b.graph.nodes.len() ==> #[trigger] graph.source_id_by_ref@[i] == source_id(
            b.graph.nodes,
            ids,
            i as nat,
        )
}

/// Why a forest cannot be finished.
pub open spec fn refused_over(
    b: BuilderModel,
    tables: TablesModel,
    e: MastForestBuilderError,
) -> bool {
    match e {
        MastForestBuilderError::CyclicNodes => has_cycle(
            pending_children(b.nodes),
            raw_refs(b.roots),
        ),
        MastForestBuilderError::FinalizeForest { source } => forest_refused(b, source),
        MastForestBuilderError::RowsOutOfRange { source_ref } => {
            &&& source_ref.0 < b.graph.nodes.len()
            &&& out_of_range(b, source_ref.0 as int)
            &&& forall|s: int| 0 <= s < source_ref.0 ==> !#[trigger] out_of_range(b, s)
        },
        _ => rows_in_range(b) && exists|forest: ForestModel, ids: Seq<Option<u32>>| #[trigger]
            forest_of(b, forest, ids) && source_refusal(b, forest, ids, tables) == Some(e),
    }
}

/// The source-level functions, with the occurrences that were kept.
pub open spec fn with_occurrences(
    b: BuilderModel,
    ids: Seq<Option<u32>>,
    rows: Seq<FunctionInfo>,
) -> Seq<FunctionInfo> {
    Seq::new(
        rows.len(),
        |i: int|
            FunctionInfo {
                source_node: function_occurrence(
                    b.graph.nodes,
                    ids,
                    function_sources(b.graph.functions),
                    i,
                ),
                ..rows[i]
            },
    )
}

/// A forest was finished with its debug information: the tables and the functions were moved to
/// tables of their own.
pub open spec fn built_with(
    b: BuilderModel,
    tables: DebugTablesModel,
    map: TablesModel,
    rows: Seq<FunctionInfo>,
    built: BuiltMastForest,
) -> bool {
    &&& is_import(
        tables,
        b.graph.functions,
        no_tables(),
        built.tables@,
        Seq::empty(),
        rows,
        map,
    )
    &&& finished_over(
        b,
        map,
        built.mast_forest@,
        built.graph,
        built.node_id_by_ref@,
    )
    &&& built.functions@ == with_occurrences(b, built.node_id_by_ref@, rows)
}

/// The tables of a builder can be moved: entries refer to entries that are there.
pub open spec fn is_closed(b: BuilderModel) -> bool {
    tables_closed(b.tables) && functions_closed(b.graph.functions, b.tables)
}

/// There may be no room for the tables of a builder.
pub open spec fn is_crowded(b: BuilderModel) -> bool {
    import_crowded(b.tables, b.graph.functions, no_tables(), Seq::empty())
}

/// A builder was finished.
pub open spec fn is_built(builder: MastForestBuilder, built: BuiltMastForest) -> bool {
    &&& is_closed(builder@)
    &&& !is_crowded(builder@)
    &&& built.mast_forest@.advice_map == builder.registry.advice_map@
    &&& exists|map: TablesModel, rows: Seq<FunctionInfo>| #[trigger]
        built_with(builder@, builder@.tables, map, rows, built)
}

/// Why a builder cannot be finished.
pub open spec fn build_refused(builder: MastForestBuilder, e: MastForestBuilderError) -> bool {
    let b = builder@;
    match e {
        MastForestBuilderError::MissingEntry => !is_closed(b),
        MastForestBuilderError::TablesFull => is_closed(b) && is_crowded(b),
        _ => is_closed(b) && !is_crowded(b) && exists|map: TablesModel| #[trigger]
            refused_over(b, map, e) && is_moved(b, map),
    }
}

/// The tables and the functions of a builder can be moved to tables of their own, where `map` says.
pub open spec fn is_moved(b: BuilderModel, map: TablesModel) -> bool {
    exists|after: DebugTablesModel, rows: Seq<FunctionInfo>| #[trigger]
        is_import(b.tables, b.graph.functions, no_tables(), after, Seq::empty(), rows, map)
}

/// Node `i` of a forest is one that went there.
pub open spec fn comes_from(ids: Seq<Option<u32>>, i: int) -> bool {
    exists|r: int| 0 <= r < ids.len() && #[trigger] ids[r] == Some(i as u32) && i <= u32::MAX
}

/// The nodes of a builder went into a forest: exactly those that can be reached from the procedure
/// roots, each over its children.
pub open spec fn forest_of(b: BuilderModel, forest: ForestModel, ids: Seq<Option<u32>>) -> bool {
    &&& ids.len() == b.nodes.len()
    &&& forall|r: int|
        0 <= r < b.nodes.len() ==> ((#[trigger] ids[r]) is Some <==> reaches(
            pending_children(b.nodes),
            raw_refs(b.roots),
            r as u32,
        ))
    &&& forall|r: int|
        0 <= r < b.nodes.len() && (#[trigger] ids[r]) is Some ==> ids[r]->0 < forest.nodes.len()
            && finished(b.nodes[r], MastNodeRef(r as u32), ids) == Ok::<
            NodeModel,
            MastForestBuilderError,
        >(forest.nodes[ids[r]->0 as int])
    &&& forall|r: int, q: int|
        0 <= r < q < b.nodes.len() && (#[trigger] ids[r]) is Some && (#[trigger] ids[q]) is Some
            ==> ids[r]->0 != ids[q]->0
    &&& forall|i: int|
        0 <= i < forest.nodes.len() ==> #[trigger] comes_from(ids, i)
    &&& forest.roots.len() == b.roots.len()
    &&& forall|j: int|
        0 <= j < b.roots.len() ==> ids[b.roots[j].0 as int] == Some(
            (#[trigger] forest.roots[j]).0,
        )
}

proof fn lemma_ids_of_live(live: Seq<MastNodeRef>, total: nat, j: int, k: nat)
    requires
        k <= live.len() <= u32::MAX,
        0 <= j < live.len(),
        live.no_duplicates(),
        forall|i: int| 0 <= i < live.len() ==> (#[trigger] live[i]).0 < total,
    ensures
        ids_upto(live, total, k).len() == total,
        ids_upto(live, total, k)[live[j].0 as int] == if j < k {
            Some(j as u32)
        } else {
            None::<u32>
        },
    decreases k,
{
    if k > 0 {
        lemma_ids_of_live(live, total, j, (k - 1) as nat);
        if j != k - 1 {
            assert(live[j] != live[k - 1]);
        }
    }
}

proof fn lemma_ids_elsewhere(live: Seq<MastNodeRef>, total: nat, r: int, k: nat)
    requires
        k <= live.len(),
        0 <= r < total <= u32::MAX,
        forall|i: int| 0 <= i < live.len() ==> (#[trigger] live[i]).0 < total,
        forall|i: int| 0 <= i < live.len() ==> (#[trigger] live[i]).0 != r,
    ensures
        ids_upto(live, total, k).len() == total,
        ids_upto(live, total, k)[r] is None,
    decreases k,
{
    if k > 0 {
        lemma_ids_elsewhere(live, total, r, (k - 1) as nat);
        assert(live[k - 1].0 != r);
    }
}

/// Live nodes in post-order can all be finished.
proof fn lemma_materializes(
    nodes: Seq<PendingModel>,
    roots: Seq<u32>,
    order: Seq<u32>,
    live: Seq<MastNodeRef>,
    k: nat,
)
    requires
        nodes.len() <= u32::MAX,
        forall|r: int| 0 <= r < nodes.len() ==> node_ok(#[trigger] nodes[r], nodes.len()),
        children_first(pending_children(nodes), order),
        live.len() == order.len() <= u32::MAX,
        forall|i: int| 0 <= i < live.len() ==> (#[trigger] live[i]).0 == order[i],
        k <= live.len(),
    ensures
        materialized_upto(nodes, live, k) is Ok,
        materialized_upto(nodes, live, k)->Ok_0.len() == k,
        forall|i: int|
            0 <= i < k ==> finished(
                nodes[live[i].0 as int],
                live[i],
                ids_upto(live, nodes.len(), live.len()),
            ) == Ok::<NodeModel, MastForestBuilderError>(
                #[trigger] materialized_upto(nodes, live, k)->Ok_0[i],
            ),
    decreases k,
{
    if k > 0 {
        lemma_materializes(nodes, roots, order, live, (k - 1) as nat);
        let i = k - 1;
        let r = live[i].0 as int;
        assert(order[i] < pending_children(nodes).len());
        let node = nodes[r];
        assert(node_ok(node, nodes.len()));
        let now = ids_upto(live, nodes.len(), i as nat);
        let end = ids_upto(live, nodes.len(), live.len());
        lemma_live_distinct(order, live);
        assert forall|j: int| 0 <= j < live.len() implies (#[trigger] live[j]).0 < nodes.len() by {
            assert(order[j] < pending_children(nodes).len());
        }
        assert forall|j: int| 0 <= j < node.child_refs.len() implies final_id(
            now,
            (#[trigger] node.child_refs[j]).0,
        ) is Some && final_id(now, node.child_refs[j].0) == final_id(end, node.child_refs[j].0) by {
            let c = node.child_refs[j].0;
            assert(pending_children(nodes)[order[i] as int][j] == c);
            assert(order.take(i).contains(pending_children(nodes)[order[i] as int][j]));
            let front = order.take(i);
            let q = choose|q: int| 0 <= q < front.len() && front[q] == c;
            assert(live[q].0 == c);
            lemma_ids_of_live(live, nodes.len(), q, i as nat);
            lemma_ids_of_live(live, nodes.len(), q, live.len());
        }
        assert(node.child_refs.len() > 0 ==> final_id(now, node.child_refs[0].0) is Some);
        assert(node.child_refs.len() > 1 ==> final_id(now, node.child_refs[1].0) is Some);
        let before = materialized_upto(nodes, live, (k - 1) as nat)->Ok_0;
        let after = materialized_upto(nodes, live, k)->Ok_0;
        assert forall|m: int| 0 <= m < k implies finished(
            nodes[live[m].0 as int],
            live[m],
            end,
        ) == Ok::<NodeModel, MastForestBuilderError>(#[trigger] after[m]) by {
            if m < k - 1 {
                assert(after[m] == before[m]);
            }
        }
    }
}

proof fn lemma_live_distinct(order: Seq<u32>, live: Seq<MastNodeRef>)
    requires
        order.no_duplicates(),
        live.len() == order.len(),
        forall|i: int| 0 <= i < live.len() ==> (#[trigger] live[i]).0 == order[i],
    ensures
        live.no_duplicates(),
{
    assert forall|i: int, j: int| 0 <= i < live.len() && 0 <= j < live.len() && i != j implies live[i]
        != live[j] by {
        assert(order[i] != order[j]);
    }
}

/// Ranges of rows depend on the operations of a node alone.
proof fn lemma_rows_fit_shape(pending: PendingKind, kind: KindModel, node: SourceModel)
    requires
        match pending {
            PendingKind::BasicBlock(batches) => kind == KindModel::Block(batches),
            _ => !(kind is Block),
        },
    ensures
        rows_fit(shape_of(pending), node) == rows_fit(kind, node),
{
    if !(pending is BasicBlock) {
        assert forall|k: KindModel| !(k is Block) implies #[trigger] rows_fit(k, node) == (
        node.op_start <= node.op_end) by {
            if node.op_start <= node.op_end {
                assert forall|i: int| 0 <= i < node.call_frames.len() implies {
                    let frame = #[trigger] node.call_frames[i];
                    let (start, end) = crate::finalizer::final_frame_range(
                        k,
                        frame.op_start,
                        frame.op_end,
                    );
                    start <= u32::MAX && end <= u32::MAX
                } by {}
            }
        }
    }
}

impl MastForestBuilder {
    fn pending_child_table(&self) -> (children: Vec<Vec<u32>>)
        ensures
            child_lists(children@) == pending_children(self@.nodes),
    {
        let mut children: Vec<Vec<u32>> = Vec::new();
        let mut i: usize = 0;
        while i < self.nodes.len()
            invariant
                i <= self.nodes@.len(),
                children@.len() == i,
                forall|k: int|
                    0 <= k < i ==> (#[trigger] children@[k])@ == raw_refs(
                        self.nodes@[k].child_refs@,
                    ),
            decreases self.nodes@.len() - i,
        {
            children.push(unwrap_refs(&self.nodes[i].child_refs));
            i += 1;
        }
        assert(child_lists(children@) =~= pending_children(self@.nodes));
        children
    }

    /// Finishes the forest with its debug information.
    ///
    /// Every procedure root and everything that can be reached from one is kept, in dense order;
    /// the rest is pruned. Functions are kept, without their occurrences where those are pruned.
    /// Refuses nodes that lead back to themselves, a forest that is not a valid one, kept
    /// occurrences over pruned ones, rows and entries over missing table entries, rows whose
    /// padded indices do not fit in four bytes, and tables that are full.
    pub fn build(self) -> (res: Result<BuiltMastForest, MastForestBuilderError>)
        requires
            self@.wf(),
            self.registry.advice_map.wf(),
        ensures
            ({
                let b = self@;
                let cyclic = has_cycle(pending_children(b.nodes), raw_refs(b.roots));
                &&& is_closed(b) && !is_crowded(b) ==> (cyclic <==> res is Err && res->Err_0
                    == MastForestBuilderError::CyclicNodes)
                &&& match res {
                    Ok(built) => is_built(self, built),
                    Err(e) => build_refused(self, e),
                }
            }),
    {
        let ghost b = self@;
        let ghost own = self.registry.tables@;
        let mut tables = DebugTables::new();
        let mut functions: Vec<FunctionInfo> = Vec::new();
        proof {
            assert(functions@ =~= Seq::empty());
        }
        let sources = list_function_sources(&self.graph.functions);
        let map = match tables.import(
            &mut functions,
            &self.registry.tables,
            &self.graph.functions,
        ) {
            Ok(map) => map,
            Err(DebugTypeError::MissingEntry) => {
                return Err(MastForestBuilderError::MissingEntry);
            },
            Err(_) => {
                return Err(MastForestBuilderError::TablesFull);
            },
        };
        let ghost rows = functions@;
        proof {
            lemma_imported_functions(
                own,
                b.graph.functions,
                no_tables(),
                tables@,
                Seq::empty(),
                rows,
                map@,
            );
            assert(b.tables == own);
            assert(is_import(
                b.tables,
                b.graph.functions,
                no_tables(),
                tables@,
                Seq::empty(),
                rows,
                map@,
            ));
            assert(is_moved(b, map@));
        }
        let finished = match self.finish_over(&map) {
            Ok(finished) => finished,
            Err(e) => {
                assert(refused_over(b, map@, e));
                return Err(e);
            },
        };
        let FinishedForest { mast_forest, graph, node_id_by_ref } = finished;
        let ghost ids = node_id_by_ref@;
        let mut i: usize = 0;
        while i < functions.len()
            invariant
                i <= functions@.len() == rows.len() == sources@.len(),
                b.wf(),
                rows.len() == b.graph.functions.len(),
                sources@ == function_sources(b.graph.functions),
                finished_over(b, map@, mast_forest@, graph, ids),
                forall|k: int|
                    0 <= k < i ==> #[trigger] functions@[k] == with_occurrences(b, ids, rows)[k],
                forall|k: int| i <= k < functions@.len() ==> #[trigger] functions@[k] == rows[k],
            decreases functions@.len() - i,
        {
            assert(b.graph.functions[i as int].source_node == sources@[i as int]);
            let occurrence: Option<u32> = match sources[i] {
                Some(s) => graph.source_id_by_ref[s as usize],
                None => None,
            };
            let row = functions[i];
            functions[i] =
            FunctionInfo {
                source_node: occurrence,
                name_idx: row.name_idx,
                linkage_name_idx: row.linkage_name_idx,
                file_idx: row.file_idx,
                line: row.line,
                column: row.column,
                type_idx: row.type_idx,
                mast_root: row.mast_root,
            };
            i += 1;
        }
        proof {
            assert(functions@ =~= with_occurrences(b, ids, rows));
        }
        let built = BuiltMastForest { mast_forest, graph, tables, functions, node_id_by_ref };
        assert(built_with(b, own, map@, rows, built));
        Ok(built)
    }

    /// Finishes the forest. `tables` says where the entries of the debug tables went.
    pub fn finish_over(self, tables: &DebugInfoTableRemapping) -> (res: Result<
        FinishedForest,
        MastForestBuilderError,
    >)
        requires
            self@.wf(),
            self.registry.advice_map.wf(),
            buildable(self@, tables@),
        ensures
            ({
                let b = self@;
                let cyclic = has_cycle(pending_children(b.nodes), raw_refs(b.roots));
                &&& cyclic <==> res is Err && res->Err_0 == MastForestBuilderError::CyclicNodes
                &&& match res {
                    Ok(finished) => {
                        &&& finished.mast_forest@.advice_map == self.registry.advice_map@
                        &&& finished_over(
                            b,
                            tables@,
                            finished.mast_forest@,
                            finished.graph,
                            finished.node_id_by_ref@,
                        )
                    },
                    Err(e) => refused_over(b, tables@, e) && e
                        != MastForestBuilderError::TablesFull && e
                        != MastForestBuilderError::MissingEntry,
                }
            }),
    {
        let ghost b = self@;
        let order = match self.plan() {
            Some(order) => order,
            None => {
                return Err(MastForestBuilderError::CyclicNodes);
            },
        };
        let (forest, ids) = match make_forest(
            &self.nodes,
            &self.procedure_root_refs,
            self.registry.advice_map,
            &order,
            Ghost(b),
        ) {
            Ok(made) => made,
            Err(e) => {
                return Err(e);
            },
        };
        let parts = SourceGraphParts {
            nodes: self.graph.nodes,
            roots: self.graph.roots,
            function_sources: list_function_sources(&self.graph.functions),
        };
        proof {
            assert(source_models(parts.nodes@) == b.graph.nodes);
            assert forall|i: int| 0 <= i < forest@.nodes.len() implies kind_wf(
                (#[trigger] forest@.nodes[i]).kind,
            ) by {
                assert(forest@.nodes[i].wf());
            }
            lemma_misfits(b, forest@, ids@);
        }
        if let Some(source) = find_misfit(&forest, &ids, &parts.nodes) {
            assert forall|s: int| 0 <= s < source implies !#[trigger] out_of_range(b, s) by {
                assert(!is_misfit(forest@.nodes, b.graph.nodes, ids@, s));
            }
            return Err(
                MastForestBuilderError::RowsOutOfRange { source_ref: SourceNodeRef(source) },
            );
        }
        proof {
            assert forall|s: int| 0 <= s < b.graph.nodes.len() implies !#[trigger] out_of_range(
                b,
                s,
            ) by {
                assert(!is_misfit(forest@.nodes, b.graph.nodes, ids@, s));
            }
            lemma_graph_wf(b, forest@, ids@, tables@);
        }
        match finalize_source_graph(&forest, &ids, &parts, tables) {
            Ok(graph) => Ok(FinishedForest { mast_forest: forest, graph, node_id_by_ref: ids }),
            Err(e) => {
                proof {
                    lemma_placed_errors(
                        forest@.nodes,
                        b.graph.nodes,
                        ids@,
                        tables@,
                        b.graph.nodes.len(),
                    );
                    if let Ok(placed) = placed_upto(
                        forest@.nodes,
                        b.graph.nodes,
                        ids@,
                        tables@,
                        b.graph.nodes.len(),
                    ) {
                        lemma_call_errors(
                            forest@.nodes,
                            b.graph.nodes,
                            ids@,
                            tables@,
                            placed,
                            b.graph.nodes.len(),
                        );
                    }
                }
                Err(e)
            },
        }
    }

    /// The nodes that are kept, every one behind its children.
    fn plan(&self) -> (order: Option<Vec<u32>>)
        requires
            self@.wf(),
        ensures
            match order {
                Some(order) => {
                    &&& is_post_order(
                        pending_children(self@.nodes),
                        raw_refs(self@.roots),
                        order@,
                    )
                    &&& order@.len() <= self@.nodes.len()
                    &&& !has_cycle(pending_children(self@.nodes), raw_refs(self@.roots))
                },
                None => has_cycle(pending_children(self@.nodes), raw_refs(self@.roots)),
            },
    {
        let ghost b = self@;
        let ghost lists = pending_children(b.nodes);
        let children = self.pending_child_table();
        let roots = unwrap_refs(&self.procedure_root_refs);
        proof {
            assert(b.roots == self.procedure_root_refs@);
            assert(child_lists(children@).len() == children@.len());
            assert forall|i: int, j: int| 0 <= i < lists.len() && 0 <= j < lists[i].len() implies (
            #[trigger] lists[i][j]) < lists.len() by {
                assert(node_ok(b.nodes[i], b.nodes.len()));
                assert(b.nodes[i].child_refs[j].0 < b.nodes.len());
            }
            assert forall|i: int| 0 <= i < roots@.len() implies (#[trigger] roots@[i])
                < children@.len() by {
                assert(b.roots[i].0 < b.nodes.len());
            }
        }
        match post_order(&children, &roots) {
            Some(order) => {
                proof {
                    law_post_order_acyclic(lists, raw_refs(b.roots), order@);
                    lemma_order_bound(order@, b.nodes.len());
                }
                Some(order)
            },
            None => None,
        }
    }
}

/// Two different placeholders stand for the same code.
pub open spec fn has_twins(b: BuilderModel, digest: Word) -> bool {
    exists|r: int, q: int|
        0 <= r < b.nodes.len() && 0 <= q < b.nodes.len() && r != q && is_placeholder(
            #[trigger] b.nodes[r],
            digest,
        ) && is_placeholder(#[trigger] b.nodes[q], digest)
}

pub open spec fn is_placeholder(node: PendingModel, digest: Word) -> bool {
    node.kind is External && node.digest == digest
}

/// Why nodes are not a forest: there are too many, or two placeholders are the same.
pub open spec fn forest_refused(b: BuilderModel, e: MastForestError) -> bool {
    match e {
        MastForestError::TooManyNodes => b.nodes.len() > MAX_NODES,
        MastForestError::DuplicateExternal(d) => has_twins(b, d),
        _ => false,
    }
}

/// Why occurrences cannot be finished: a child of one that is kept is not, or a row refers to a
/// missing table entry.
pub open spec fn source_refusal(
    b: BuilderModel,
    forest: ForestModel,
    ids: Seq<Option<u32>>,
    tables: TablesModel,
) -> Option<MastForestBuilderError> {
    let n = b.graph.nodes.len();
    match placed_upto(forest.nodes, b.graph.nodes, ids, tables, n) {
        Err(e) => Some(e),
        Ok(placed) => match with_calls(forest.nodes, b.graph.nodes, ids, tables, placed, n) {
            Err(e) => Some(e),
            Ok(_) => None,
        },
    }
}

proof fn lemma_twins(
    b: BuilderModel,
    order: Seq<u32>,
    live: Seq<MastNodeRef>,
    done: Seq<NodeModel>,
    digest: Word,
)
    requires
        b.wf(),
        is_post_order(pending_children(b.nodes), raw_refs(b.roots), order),
        live.len() == order.len() == done.len() <= u32::MAX,
        forall|i: int| 0 <= i < live.len() ==> (#[trigger] live[i]).0 == order[i],
        forall|i: int|
            0 <= i < done.len() ==> finished(
                b.nodes[live[i].0 as int],
                live[i],
                ids_upto(live, b.nodes.len(), live.len()),
            ) == Ok::<NodeModel, MastForestBuilderError>(#[trigger] done[i]),
        duplicate_external(done, digest),
    ensures
        has_twins(b, digest),
{
    let (i, j) = choose|i: int, j: int|
        0 <= i < j < done.len() && (#[trigger] done[i]).kind is External && (
        #[trigger] done[j]).kind is External && done[i].digest == digest && done[j].digest
            == digest;
    let r = live[i].0 as int;
    let q = live[j].0 as int;
    assert(order[i] < pending_children(b.nodes).len());
    assert(order[j] < pending_children(b.nodes).len());
    assert(live[i].0 == order[i] && live[j].0 == order[j]);
    assert(r != q);
    assert(is_placeholder(b.nodes[r], digest));
    assert(is_placeholder(b.nodes[q], digest));
}

/// Finishes the nodes in `order`, and says where they went.
fn make_forest(
    pending: &Vec<PendingMastNode>,
    root_refs: &Vec<MastNodeRef>,
    advice_map: AdviceMap,
    order: &Vec<u32>,
    Ghost(b): Ghost<BuilderModel>,
) -> (res: Result<(MastForest, Vec<Option<u32>>), MastForestBuilderError>)
    requires
        b.wf(),
        b.nodes == pending_models(pending@),
        b.roots == root_refs@,
        advice_map.wf(),
        is_post_order(pending_children(b.nodes), raw_refs(b.roots), order@),
        order@.len() <= b.nodes.len(),
    ensures
        match res {
            Ok((forest, ids)) => {
                &&& forest@.wf()
                &&& dense(forest@.nodes)
                &&& forest@.advice_map == advice_map@
                &&& forest_of(b, forest@, ids@)
            },
            Err(e) => e matches MastForestBuilderError::FinalizeForest { source }
                && forest_refused(b, source),
        },
{
    let live = wrap_refs(order);
    proof {
        assert forall|r: int| 0 <= r < b.nodes.len() implies (#[trigger] b.nodes[r]).digest.wf()
            && b.nodes[r].kind.wf() by {
            assert(node_ok(b.nodes[r], b.nodes.len()));
        }
        assert forall|i: int| 0 <= i < live@.len() implies (#[trigger] live@[i]).0
            < pending@.len() by {
            assert(order@[i] < pending_children(b.nodes).len());
        }
        lemma_materializes(b.nodes, raw_refs(b.roots), order@, live@, live@.len());
    }
    let (nodes, first) = match materialize_live_nodes(&live, pending) {
        Ok(done) => done,
        Err(e) => {
            assert(false);
            return Err(e);
        },
    };
    let ghost done = node_models(nodes@);
    proof {
        lemma_first_ids(b, order@, live@);
    }
    let roots = root_ids(root_refs, &first, Ghost(b), Ghost(order@), Ghost(live@));
    proof {
        lemma_no_late_node(done, done.len());
        lemma_no_bad_root(roots@, done.len(), roots@.len());
    }
    let (forest, map) = match MastForest::from_raw_parts_with_id_map(nodes, roots, advice_map) {
        Ok(parts) => parts,
        Err(source) => {
            proof {
                if let MastForestError::DuplicateExternal(d) = source {
                    lemma_twins(b, order@, live@, done, d);
                }
            }
            return Err(MastForestBuilderError::FinalizeForest { source });
        },
    };
    let ids = move_ids(&first, &map);
    proof {
        lemma_forest_of(b, forest@, order@, live@, done, first@, ids@, map@, roots@);
    }
    Ok((forest, ids))
}

/// The ids of the procedure roots before the nodes are brought into dense order.
fn root_ids(
    root_refs: &Vec<MastNodeRef>,
    ids: &Vec<Option<u32>>,
    Ghost(b): Ghost<BuilderModel>,
    Ghost(order): Ghost<Seq<u32>>,
    Ghost(live): Ghost<Seq<MastNodeRef>>,
) -> (roots: Vec<MastNodeId>)
    requires
        b.wf(),
        b.roots == root_refs@,
        is_post_order(pending_children(b.nodes), raw_refs(b.roots), order),
        live.len() == order.len() <= u32::MAX,
        forall|i: int| 0 <= i < live.len() ==> (#[trigger] live[i]).0 == order[i],
        ids@ == ids_upto(live, b.nodes.len(), live.len()),
        first_ids_ok(b, order, ids@),
    ensures
        roots@.len() == b.roots.len(),
        forall|j: int|
            0 <= j < roots@.len() ==> (#[trigger] roots@[j]).0 < order.len()
                && ids@[b.roots[j].0 as int] == Some(roots@[j].0),
{
    let mut roots: Vec<MastNodeId> = Vec::new();
    let mut i: usize = 0;
    while i < root_refs.len()
        invariant
            i <= root_refs@.len(),
            b.wf(),
            b.roots == root_refs@,
            is_post_order(pending_children(b.nodes), raw_refs(b.roots), order),
            first_ids_ok(b, order, ids@),
            roots@.len() == i,
            forall|j: int|
                0 <= j < roots@.len() ==> (#[trigger] roots@[j]).0 < order.len()
                    && ids@[b.roots[j].0 as int] == Some(roots@[j].0),
        decreases root_refs@.len() - i,
    {
        let r = root_refs[i];
        proof {
            assert(b.roots[i as int].0 < b.nodes.len());
            assert(raw_refs(b.roots)[i as int] == r.0);
            assert(order.contains(raw_refs(b.roots)[i as int]));
            assert(r.0 as int as u32 == r.0);
            assert(ids@[r.0 as int] is Some);
        }
        match ids[r.0 as usize] {
            Some(id) => roots.push(MastNodeId(id)),
            None => {
                assert(false);
            },
        }
        i += 1;
    }
    roots
}

/// Each node in `order` has its position as its first id, and no other node has one.
spec fn first_ids_ok(b: BuilderModel, order: Seq<u32>, first: Seq<Option<u32>>) -> bool {
    &&& first.len() == b.nodes.len()
    &&& forall|r: int|
        0 <= r < b.nodes.len() ==> ((#[trigger] first[r]) is Some <==> order.contains(r as u32)) && (
        first[r] is Some ==> first[r]->0 < order.len() && order[first[r]->0 as int] == r)
}

proof fn lemma_first_ids(b: BuilderModel, order: Seq<u32>, live: Seq<MastNodeRef>)
    requires
        b.wf(),
        is_post_order(pending_children(b.nodes), raw_refs(b.roots), order),
        live.len() == order.len() <= u32::MAX,
        forall|i: int| 0 <= i < live.len() ==> (#[trigger] live[i]).0 == order[i],
    ensures
        first_ids_ok(b, order, ids_upto(live, b.nodes.len(), live.len())),
{
    let n = b.nodes.len();
    let first = ids_upto(live, n, live.len());
    lemma_live_distinct(order, live);
    assert forall|i: int| 0 <= i < live.len() implies (#[trigger] live[i]).0 < n by {
        assert(order[i] < pending_children(b.nodes).len());
    }
    lemma_ids_len(live, n, live.len());
    assert forall|r: int| 0 <= r < n implies ((#[trigger] first[r]) is Some <==> order.contains(
        r as u32,
    )) && (first[r] is Some ==> first[r]->0 < order.len() && order[first[r]->0 as int] == r) by {
        if order.contains(r as u32) {
            let q = choose|q: int| 0 <= q < order.len() && order[q] == r as u32;
            assert(live[q].0 == r);
            lemma_ids_of_live(live, n, q, live.len());
        } else {
            assert forall|i: int| 0 <= i < live.len() implies (#[trigger] live[i]).0 != r by {
                assert(order[i] != r as u32);
            }
            lemma_ids_elsewhere(live, n, r, live.len());
        }
    }
}

proof fn lemma_ids_len(live: Seq<MastNodeRef>, total: nat, k: nat)
    requires
        k <= live.len(),
        forall|i: int| 0 <= i < live.len() ==> (#[trigger] live[i]).0 < total,
    ensures
        ids_upto(live, total, k).len() == total,
    decreases k,
{
    if k > 0 {
        lemma_ids_len(live, total, (k - 1) as nat);
        assert(live[k - 1].0 < total);
    }
}

/// A sequence of different numbers below `n` is not longer than `n`.
proof fn lemma_order_bound(order: Seq<u32>, n: nat)
    requires
        order.no_duplicates(),
        forall|p: int| 0 <= p < order.len() ==> (#[trigger] order[p]) < n,
        n <= u32::MAX,
    ensures
        order.len() <= n,
{
    order.unique_seq_to_set();
    let ids = Seq::new(n, |i: int| i as u32);
    assert(ids.no_duplicates());
    ids.unique_seq_to_set();
    assert(order.to_set().subset_of(ids.to_set())) by {
        assert forall|x: u32| order.to_set().contains(x) implies ids.to_set().contains(x) by {
            let p = choose|p: int| 0 <= p < order.len() && order[p] == x;
            assert(order[p] < n);
            assert(ids[x as int] == x);
        }
    }
    vstd::set_lib::lemma_len_subset(order.to_set(), ids.to_set());
}

proof fn lemma_no_late_node(nodes: Seq<NodeModel>, k: nat)
    requires
        k <= nodes.len(),
        forall|i: int| 0 <= i < nodes.len() ==> children_below((#[trigger] nodes[i]).kind, i),
    ensures
        late_node(nodes, k) is None,
    decreases k,
{
    if k > 0 {
        lemma_no_late_node(nodes, (k - 1) as nat);
        let c = nodes[k - 1].kind.children();
        assert(children_below(nodes[k - 1].kind, k - 1));
        assert(c.len() > 0 ==> c[0].0 < k - 1);
        assert(c.len() > 1 ==> c[1].0 < k - 1);
    }
}

proof fn lemma_no_bad_root(roots: Seq<MastNodeId>, n: nat, k: nat)
    requires
        k <= roots.len(),
        forall|i: int| 0 <= i < roots.len() ==> (#[trigger] roots[i]).0 < n,
    ensures
        crate::dense::bad_root(roots, n, k) is None,
    decreases k,
{
    if k > 0 {
        lemma_no_bad_root(roots, n, (k - 1) as nat);
        assert(roots[k - 1].0 < n);
    }
}

fn unwrap_refs(refs: &Vec<MastNodeRef>) -> (raw: Vec<u32>)
    ensures
        raw@ == raw_refs(refs@),
{
    let mut raw: Vec<u32> = Vec::new();
    let mut i: usize = 0;
    while i < refs.len()
        invariant
            i <= refs@.len(),
            raw@ =~= raw_refs(refs@).take(i as int),
        decreases refs@.len() - i,
    {
        raw.push(refs[i].0);
        i += 1;
    }
    assert(raw@ =~= raw_refs(refs@));
    raw
}

fn wrap_refs(raw: &Vec<u32>) -> (refs: Vec<MastNodeRef>)
    ensures
        refs@.len() == raw@.len(),
        forall|i: int| 0 <= i < refs@.len() ==> (#[trigger] refs@[i]).0 == raw@[i],
{
    let mut refs: Vec<MastNodeRef> = Vec::new();
    let mut i: usize = 0;
    while i < raw.len()
        invariant
            i <= raw@.len(),
            refs@.len() == i,
            forall|k: int| 0 <= k < i ==> (#[trigger] refs@[k]).0 == raw@[k],
        decreases raw@.len() - i,
    {
        refs.push(MastNodeRef(raw[i]));
        i += 1;
    }
    refs
}

fn list_function_sources(functions: &Vec<FunctionInfo>) -> (sources: Vec<Option<u32>>)
    ensures
        sources@ == function_sources(functions@),
{
    let mut sources: Vec<Option<u32>> = Vec::new();
    let mut i: usize = 0;
    while i < functions.len()
        invariant
            i <= functions@.len(),
            sources@ =~= function_sources(functions@).take(i as int),
        decreases functions@.len() - i,
    {
        sources.push(functions[i].source_node);
        i += 1;
    }
    assert(sources@ =~= function_sources(functions@));
    sources
}

/// The ids after the nodes were moved.
spec fn moved_ids(ids: Seq<Option<u32>>, map: Seq<u32>) -> Seq<Option<u32>> {
    Seq::new(
        ids.len(),
        |i: int|
            match ids[i] {
                Some(id) => Some(map[id as int]),
                None => None,
            },
    )
}

fn move_ids(ids: &Vec<Option<u32>>, map: &Vec<u32>) -> (res: Vec<Option<u32>>)
    requires
        forall|i: int|
            0 <= i < ids@.len() && (#[trigger] ids@[i]) is Some ==> ids@[i]->0 < map@.len(),
    ensures
        res@ == moved_ids(ids@, map@),
{
    let mut res: Vec<Option<u32>> = Vec::new();
    let mut i: usize = 0;
    while i < ids.len()
        invariant
            i <= ids@.len(),
            forall|i: int|
                0 <= i < ids@.len() && (#[trigger] ids@[i]) is Some ==> ids@[i]->0 < map@.len(),
            res@ =~= moved_ids(ids@, map@).take(i as int),
        decreases ids@.len() - i,
    {
        match ids[i] {
            Some(id) => {
                assert(ids@[i as int] is Some);
                res.push(Some(map[id as usize]))
            },
            None => res.push(None),
        }
        i += 1;
    }
    assert(res@ =~= moved_ids(ids@, map@));
    res
}

/// A map that sends no two of `n` indices to the same one reaches each of them.
pub proof fn lemma_each_reached(map: Seq<int>, n: nat, i: int)
    requires
        map.len() == n,
        forall|k: int| 0 <= k < map.len() ==> 0 <= (#[trigger] map[k]) < n,
        forall|k: int, j: int|
            0 <= k < map.len() && 0 <= j < map.len() && k != j ==> map[k] != map[j],
        0 <= i < n,
    ensures
        exists|k: int| 0 <= k < map.len() && map[k] == i,
{
    let range = vstd::set_lib::set_int_range(0, n as int);
    map.unique_seq_to_set();
    vstd::seq_lib::seq_to_set_is_finite(map);
    vstd::set_lib::lemma_int_range(0, n as int);
    assert(map.to_set().subset_of(range)) by {
        assert forall|x: int| map.to_set().contains(x) implies range.contains(x) by {
            let k = choose|k: int| 0 <= k < map.len() && map[k] == x;
            assert(0 <= map[k] < n);
        }
    }
    vstd::set_lib::lemma_subset_equality(map.to_set(), range);
    assert(range.contains(i));
    assert(map.to_set().contains(i));
}

proof fn lemma_onto(map: Seq<u32>, n: nat, i: int)
    requires
        map.len() == n,
        forall|k: int| 0 <= k < map.len() ==> (#[trigger] map[k]) < n,
        forall|k: int, j: int|
            0 <= k < map.len() && 0 <= j < map.len() && k != j ==> map[k] != map[j],
        0 <= i < n,
    ensures
        exists|k: int| 0 <= k < map.len() && map[k] == i,
{
    let values = Seq::new(n, |k: int| map[k] as int);
    lemma_each_reached(values, n, i);
    let k = choose|k: int| 0 <= k < values.len() && values[k] == i;
    assert(map[k] == i);
}

proof fn lemma_forest_of(
    b: BuilderModel,
    forest: ForestModel,
    order: Seq<u32>,
    live: Seq<MastNodeRef>,
    done: Seq<NodeModel>,
    first: Seq<Option<u32>>,
    ids: Seq<Option<u32>>,
    map: Seq<u32>,
    root_ids: Seq<MastNodeId>,
)
    requires
        b.wf(),
        is_post_order(pending_children(b.nodes), raw_refs(b.roots), order),
        live.len() == order.len() <= u32::MAX,
        forall|i: int| 0 <= i < live.len() ==> (#[trigger] live[i]).0 == order[i],
        materialized_upto(b.nodes, live, live.len()) == Ok::<
            Seq<NodeModel>,
            MastForestBuilderError,
        >(done),
        done.len() == live.len(),
        first == ids_upto(live, b.nodes.len(), live.len()),
        ids == moved_ids(first, map),
        is_move(done, forest.nodes, map),
        root_ids.len() == b.roots.len(),
        forall|j: int|
            0 <= j < root_ids.len() ==> (#[trigger] root_ids[j]).0 < order.len()
                && first[b.roots[j].0 as int] == Some(root_ids[j].0),
        forest.roots.len() == root_ids.len(),
        forall|j: int|
            0 <= j < root_ids.len() ==> #[trigger] forest.roots[j] == moved(map, root_ids[j]),
    ensures
        forest_of(b, forest, ids),
{
    let n = b.nodes.len();
    let lists = pending_children(b.nodes);
    lemma_first_ids(b, order, live);
    assert(ids.len() == n);
    assert forall|r: int| 0 <= r < n implies ((#[trigger] ids[r]) is Some <==> reaches(
        lists,
        raw_refs(b.roots),
        r as u32,
    )) by {
        law_post_order_complete(lists, raw_refs(b.roots), order, r as u32);
        assert(first[r] is Some <==> order.contains(r as u32));
    }
    lemma_materializes(b.nodes, raw_refs(b.roots), order, live, live.len());
    assert forall|r: int| 0 <= r < n && (#[trigger] ids[r]) is Some implies ids[r]->0
        < forest.nodes.len() && finished(b.nodes[r], MastNodeRef(r as u32), ids) == Ok::<
        NodeModel,
        MastForestBuilderError,
    >(forest.nodes[ids[r]->0 as int]) by {
        assert(first[r] is Some);
        let k = first[r]->0 as int;
        assert(order[k] == r);
        assert(live[k] == MastNodeRef(r as u32));
        assert(finished(b.nodes[live[k].0 as int], live[k], first) == Ok::<
            NodeModel,
            MastForestBuilderError,
        >(done[k]));
        assert(map[k] < forest.nodes.len());
        assert(forest.nodes[map[k] as int] == moved_node(map, done[k]));
        assert(node_ok(b.nodes[r], n));
        lemma_finished_moved(b.nodes[r], MastNodeRef(r as u32), first, ids, map, done[k], n);
    }
    assert forall|r: int, q: int|
        0 <= r < q < n && (#[trigger] ids[r]) is Some && (#[trigger] ids[q]) is Some implies ids[r]->0
        != ids[q]->0 by {
        assert(first[r] is Some && first[q] is Some);
        let i = first[r]->0 as int;
        let j = first[q]->0 as int;
        assert(order[i] == r && order[j] == q);
        assert(map[i] != map[j]);
    }
    assert forall|i: int| 0 <= i < forest.nodes.len() implies #[trigger] comes_from(ids, i) by {
        lemma_onto(map, forest.nodes.len(), i);
        let k = choose|k: int| 0 <= k < map.len() && map[k] == i;
        let r = order[k] as int;
        assert(live[k].0 == order[k]);
        assert(order[k] < lists.len());
        assert(order.contains(r as u32));
        assert(first[r] is Some);
        assert(order[first[r]->0 as int] == order[k]);
        assert(ids[r] == Some(i as u32));
    }
    assert forall|j: int| 0 <= j < b.roots.len() implies ids[b.roots[j].0 as int] == Some(
        (#[trigger] forest.roots[j]).0,
    ) by {
        assert(b.roots[j].0 < n);
        assert(root_ids[j].0 < order.len());
        assert(first[b.roots[j].0 as int] == Some(root_ids[j].0));
    }
}

/// Finishing a node with the ids after the move gives the moved node.
proof fn lemma_finished_moved(
    node: PendingModel,
    node_ref: MastNodeRef,
    first: Seq<Option<u32>>,
    ids: Seq<Option<u32>>,
    map: Seq<u32>,
    done: NodeModel,
    n: nat,
)
    requires
        node_ok(node, n),
        first.len() == n,
        ids == moved_ids(first, map),
        finished(node, node_ref, first) == Ok::<NodeModel, MastForestBuilderError>(done),
    ensures
        finished(node, node_ref, ids) == Ok::<NodeModel, MastForestBuilderError>(
            moved_node(map, done),
        ),
{
    let c = node.child_refs;
    if c.len() > 0 {
        assert(c[0].0 < n);
        assert(ids[c[0].0 as int] == Some(map[first[c[0].0 as int]->0 as int]));
    }
    if c.len() > 1 {
        assert(c[1].0 < n);
        assert(ids[c[1].0 as int] == Some(map[first[c[1].0 as int]->0 as int]));
    }
}

/// Kept occurrences whose rows do not fit are those of a builder.
pub proof fn lemma_misfits(b: BuilderModel, forest: ForestModel, ids: Seq<Option<u32>>)
    requires
        b.wf(),
        forest_of(b, forest, ids),
    ensures
        forall|s: int|
            0 <= s < b.graph.nodes.len() ==> #[trigger] is_misfit(
                forest.nodes,
                b.graph.nodes,
                ids,
                s,
            ) == out_of_range(b, s),
{
    let nodes = b.graph.nodes;
    assert forall|s: int| 0 <= s < nodes.len() implies #[trigger] is_misfit(
        forest.nodes,
        nodes,
        ids,
        s,
    ) == out_of_range(b, s) by {
        let r = nodes[s].exec_node as int;
        assert(r < b.nodes.len());
        assert(ids[r] is Some <==> reaches(
            pending_children(b.nodes),
            raw_refs(b.roots),
            r as u32,
        ));
        if ids[r] is Some {
            let kind = forest.nodes[ids[r]->0 as int].kind;
            assert(finished(b.nodes[r], MastNodeRef(r as u32), ids) == Ok::<
                NodeModel,
                MastForestBuilderError,
            >(forest.nodes[ids[r]->0 as int]));
            lemma_rows_fit_shape(b.nodes[r].kind, kind, nodes[s]);
        }
    }
}

proof fn lemma_graph_wf(
    b: BuilderModel,
    forest: ForestModel,
    ids: Seq<Option<u32>>,
    tables: TablesModel,
)
    requires
        b.wf(),
        buildable(b, tables),
        rows_in_range(b),
        forest.wf(),
        forest_of(b, forest, ids),
    ensures
        graph_wf(forest.nodes, b.graph.nodes, ids, tables, function_sources(b.graph.functions)),
{
    let nodes = b.graph.nodes;
    let functions = function_sources(b.graph.functions);
    lemma_misfits(b, forest, ids);
    assert forall|i: int| 0 <= i < forest.nodes.len() implies kind_wf(
        (#[trigger] forest.nodes[i]).kind,
    ) by {
        assert(forest.nodes[i].wf());
    }
    assert forall|i: int| 0 <= i < nodes.len() && is_live(ids, #[trigger] nodes[i]) implies rows_fit(
        forest.nodes[final_id(ids, nodes[i].exec_node)->0 as int].kind,
        nodes[i],
    ) by {
        assert(is_misfit(forest.nodes, nodes, ids, i) == out_of_range(b, i));
    }
    assert forall|i: int|
        0 <= i < functions.len() && #[trigger] function_occurrence(nodes, ids, functions, i) is Some implies lookup(
        tables.functions, i as u32) is Some by {
        assert(b.graph.functions[i].source_node is Some);
    }
}

proof fn lemma_collect_children(
    nodes: Seq<SourceModel>,
    ids: Seq<Option<u32>>,
    source_ref: u32,
    children: Seq<u32>,
    k: nat,
)
    requires
        k <= children.len(),
    ensures
        match crate::debug_info::collected(
            children,
            crate::finalizer::final_child(nodes, ids, source_ref),
            k,
        ) {
            Err(e) => e is MissingFinalSourceChild,
            Ok(_) => true,
        },
    decreases k,
{
    if k > 0 {
        lemma_collect_children(nodes, ids, source_ref, children, (k - 1) as nat);
    }
}

proof fn lemma_placed_errors(
    forest: Seq<NodeModel>,
    nodes: Seq<SourceModel>,
    ids: Seq<Option<u32>>,
    tables: TablesModel,
    k: nat,
)
    requires
        k <= nodes.len(),
    ensures
        match placed_upto(forest, nodes, ids, tables, k) {
            Err(e) => e is MissingFinalSourceChild || e is Missing,
            Ok(_) => true,
        },
    decreases k,
{
    if k > 0 {
        lemma_placed_errors(forest, nodes, ids, tables, (k - 1) as nat);
        lemma_collect_children(
            nodes,
            ids,
            (k - 1) as u32,
            nodes[k - 1].children,
            nodes[k - 1].children.len(),
        );
    }
}

proof fn lemma_call_errors(
    forest: Seq<NodeModel>,
    nodes: Seq<SourceModel>,
    ids: Seq<Option<u32>>,
    tables: TablesModel,
    placed: Seq<SourceModel>,
    k: nat,
)
    requires
        k <= nodes.len(),
    ensures
        match with_calls(forest, nodes, ids, tables, placed, k) {
            Err(e) => e is Missing,
            Ok(_) => true,
        },
    decreases k,
{
    if k > 0 {
        lemma_call_errors(forest, nodes, ids, tables, placed, (k - 1) as nat);
    }
}

/// The functions of a finished forest are those that were recorded, with all that they say; each is
/// at the finished occurrence of the one that it was recorded at, if that was kept, else nowhere.
pub proof fn law_finished_functions_say_the_same(
    b: BuilderModel,
    ids: Seq<Option<u32>>,
    rows: Seq<FunctionInfo>,
    i: int,
)
    requires
        0 <= i < rows.len() == b.graph.functions.len(),
    ensures
        ({
            let function = with_occurrences(b, ids, rows)[i];
            &&& with_occurrences(b, ids, rows).len() == rows.len()
            &&& function.name_idx == rows[i].name_idx
            &&& function.linkage_name_idx == rows[i].linkage_name_idx
            &&& function.file_idx == rows[i].file_idx
            &&& function.line == rows[i].line
            &&& function.column == rows[i].column
            &&& function.type_idx == rows[i].type_idx
            &&& function.mast_root == rows[i].mast_root
            &&& b.graph.functions[i].source_node is None ==> function.source_node is None
            &&& b.graph.functions[i].source_node matches Some(s) ==> function.source_node
                == crate::finalizer::source_id(b.graph.nodes, ids, s as nat)
        }),
{
}

} // verus!
