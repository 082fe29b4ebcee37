//! The source rows of nodes that come from statically linked packages.
//!
//! A package counts the operations of a finished block, with padding; the builder counts them
//! without.

use vstd::prelude::*;

use crate::batch::raw_of;
use crate::block::writable;
use crate::debug_info::{
    asm_op_in, call_frame_in, collect_all, collected, lemma_collected_error, lookup, remap_asm_op,
    remap_call_frame, remapped, remapped_option, remapped_spec, source_models,
    DebugInfoTableRemapping, DebugSourceAsmOp, DebugSourceCallFrame, DebugSourceInlineCall,
    DebugSourceVar, DebugTable, MissingIndex, SourceModel, SourceNode, TablesModel,
};
use crate::felt::Word;
use crate::forest::MastForest;
use crate::node::{KindModel, MastNode, NodeKind, NodeModel};
use crate::op_index::{padded_len, raw_operations, unadjust_index, unadjusted};
use crate::registry::{DebugTables, DebugTablesModel};
use crate::source_graph::{range_ok, FunctionInfo};

verus! {

/// The debug information of a package: its source graph, its functions, and the tables that they
/// refer to. Execution nodes are those of the package's forest.
pub struct PackageDebugInfo {
    pub nodes: Vec<SourceNode>,
    pub roots: Vec<u32>,
    pub functions: Vec<FunctionInfo>,
    pub tables: DebugTables,
}

/// The contents of a [`PackageDebugInfo`].
pub ghost struct PackageModel {
    pub nodes: Seq<SourceModel>,
    pub roots: Seq<u32>,
    pub functions: Seq<FunctionInfo>,
    pub tables: DebugTablesModel,
}

impl PackageDebugInfo {
    pub open spec fn view(&self) -> PackageModel {
        PackageModel {
            nodes: source_models(self.nodes@),
            roots: self.roots@,
            functions: self.functions@,
            tables: self.tables@,
        }
    }
}

// MODEL
// ================================================================================================

/// The index of an operation of a node without padding.
pub open spec fn raw_index(kind: KindModel, op_idx: u32) -> u32 {
    match kind {
        KindModel::Block(batches) => unadjusted(batches, op_idx as nat) as u32,
        _ => op_idx,
    }
}

/// The range of an occurrence without padding.
pub open spec fn raw_source_range(kind: KindModel, op_start: u32, op_end: u32) -> (nat, nat) {
    if op_start == op_end {
        (op_start as nat, op_end as nat)
    } else {
        match kind {
            KindModel::Block(_) => (
                raw_index(kind, op_start) as nat,
                (raw_index(kind, (op_end - 1) as u32) + 1) as nat,
            ),
            _ => (op_start as nat, op_end as nat),
        }
    }
}

/// The range of a call frame without padding.
pub open spec fn raw_frame_range(kind: KindModel, op_start: u32, op_end: u32) -> (nat, nat) {
    if op_start == op_end {
        (op_start as nat, op_end as nat)
    } else {
        match kind {
            KindModel::Block(batches) => (
                raw_index(kind, op_start) as nat,
                if op_end == padded_len(batches) {
                    raw_of(batches).len()
                } else {
                    raw_index(kind, op_end) as nat
                },
            ),
            _ => (op_start as nat, op_end as nat),
        }
    }
}

pub open spec fn raw_asm_op(kind: KindModel, tables: TablesModel) -> spec_fn(
    DebugSourceAsmOp,
) -> Result<DebugSourceAsmOp, MissingIndex> {
    |row: DebugSourceAsmOp| asm_op_in(row, raw_index(kind, row.op_idx), tables)
}

/// A variable with its indices remapped in the order name, location, type.
pub open spec fn raw_debug_var(kind: KindModel, tables: TablesModel) -> spec_fn(
    DebugSourceVar,
) -> Result<DebugSourceVar, MissingIndex> {
    |row: DebugSourceVar|
        match remapped_spec(
            lookup(tables.strings, row.name_idx),
            row.name_idx,
            DebugTable::String,
        ) {
            Err(e) => Err(e),
            Ok(name_idx) => match remapped_option(
                tables.locations,
                row.location_idx,
                DebugTable::Location,
            ) {
                Err(e) => Err(e),
                Ok(location_idx) => match remapped_option(
                    tables.types,
                    row.type_id,
                    DebugTable::Type,
                ) {
                    Err(e) => Err(e),
                    Ok(type_id) => Ok(
                        DebugSourceVar {
                            op_idx: raw_index(kind, row.op_idx),
                            name_idx,
                            type_id,
                            arg_idx: row.arg_idx,
                            location_idx,
                            value_idx: row.value_idx,
                        },
                    ),
                },
            },
        }
}

/// An inlined call with its indices remapped in the order location, function.
pub open spec fn raw_inline_call(kind: KindModel, tables: TablesModel) -> spec_fn(
    DebugSourceInlineCall,
) -> Result<DebugSourceInlineCall, MissingIndex> {
    |row: DebugSourceInlineCall|
        match remapped_spec(
            lookup(tables.locations, row.loc_idx),
            row.loc_idx,
            DebugTable::Location,
        ) {
            Err(e) => Err(e),
            Ok(loc_idx) => match remapped_spec(
                lookup(tables.functions, row.callee_idx),
                row.callee_idx,
                DebugTable::Function,
            ) {
                Err(e) => Err(e),
                Ok(callee_idx) => Ok(
                    DebugSourceInlineCall {
                        op_idx: raw_index(kind, row.op_idx),
                        callee_idx,
                        loc_idx,
                    },
                ),
            },
        }
}

pub open spec fn raw_call_frame(kind: KindModel, tables: TablesModel) -> spec_fn(
    DebugSourceCallFrame,
) -> Result<DebugSourceCallFrame, MissingIndex> {
    |row: DebugSourceCallFrame|
        {
            let (start, end) = raw_frame_range(kind, row.op_start, row.op_end);
            call_frame_in(row, start as u32, end as u32, tables)
        }
}

/// The functions among the first `k` of a package that belong to an occurrence: those recorded at
/// it, and those recorded nowhere whose code it is. Functions without a place in the tables are
/// left out.
pub open spec fn occurrence_functions(
    functions: Seq<FunctionInfo>,
    tables: TablesModel,
    source: u32,
    mast_root: Word,
    k: nat,
) -> Seq<u32>
    decreases k,
{
    if k == 0 {
        Seq::empty()
    } else {
        let before = occurrence_functions(functions, tables, source, mast_root, (k - 1) as nat);
        let f = functions[k - 1];
        let belongs = f.source_node == Some(source) || (f.source_node is None && f.mast_root
            == mast_root);
        match lookup(tables.functions, (k - 1) as u32) {
            Some(index) => if belongs {
                before.push(index)
            } else {
                before
            },
            None => before,
        }
    }
}

/// The source rows of a node of a package.
pub struct StaticSourceMetadata {
    pub op_start: u32,
    pub op_end: u32,
    pub asm_ops: Vec<DebugSourceAsmOp>,
    pub debug_vars: Vec<DebugSourceVar>,
    pub inline_calls: Vec<DebugSourceInlineCall>,
    pub call_frames: Vec<DebugSourceCallFrame>,
    pub functions: Vec<u32>,
}

/// The contents of a [`StaticSourceMetadata`].
pub ghost struct MetadataModel {
    pub op_start: u32,
    pub op_end: u32,
    pub asm_ops: Seq<DebugSourceAsmOp>,
    pub debug_vars: Seq<DebugSourceVar>,
    pub inline_calls: Seq<DebugSourceInlineCall>,
    pub call_frames: Seq<DebugSourceCallFrame>,
    pub functions: Seq<u32>,
}

impl StaticSourceMetadata {
    pub open spec fn view(&self) -> MetadataModel {
        MetadataModel {
            op_start: self.op_start,
            op_end: self.op_end,
            asm_ops: self.asm_ops@,
            debug_vars: self.debug_vars@,
            inline_calls: self.inline_calls@,
            call_frames: self.call_frames@,
            functions: self.functions@,
        }
    }
}

/// The rows of occurrence `source` of a package, for the builder: moved to its tables, and counted
/// without padding.
pub open spec fn source_metadata(
    forest: Seq<NodeModel>,
    package: PackageModel,
    tables: TablesModel,
    source: u32,
) -> Result<MetadataModel, MissingIndex> {
    let node = package.nodes[source as int];
    let exec = forest[node.exec_node as int];
    let kind = exec.kind;
    match collect_all(node.asm_ops, raw_asm_op(kind, tables)) {
        Err(e) => Err(e),
        Ok(asm_ops) => match collect_all(node.debug_vars, raw_debug_var(kind, tables)) {
            Err(e) => Err(e),
            Ok(debug_vars) => match collect_all(node.inline_calls, raw_inline_call(kind, tables)) {
                Err(e) => Err(e),
                Ok(inline_calls) => match collect_all(
                    node.call_frames,
                    raw_call_frame(kind, tables),
                ) {
                    Err(e) => Err(e),
                    Ok(call_frames) => {
                        let (start, end) = raw_source_range(kind, node.op_start, node.op_end);
                        Ok(
                            MetadataModel {
                                op_start: start as u32,
                                op_end: end as u32,
                                asm_ops,
                                debug_vars,
                                inline_calls,
                                call_frames,
                                functions: occurrence_functions(
                                    package.functions,
                                    tables,
                                    source,
                                    exec.digest,
                                    package.functions.len(),
                                ),
                            },
                        )
                    },
                },
            },
        },
    }
}

/// Rows that a finished block can have: its unpadded operations can be counted.
pub open spec fn countable(kind: KindModel) -> bool {
    match kind {
        KindModel::Block(batches) => writable(batches) && batches.len() > 0 && raw_of(
            batches,
        ).len() <= u32::MAX,
        _ => true,
    }
}

/// A range that was made for a finished block ends where it starts or behind it without padding
/// too.
pub proof fn lemma_raw_range_ordered(kind: KindModel, op_start: u32, op_end: u32)
    requires
        op_start <= op_end,
    ensures
        raw_source_range(kind, op_start, op_end).0 <= raw_source_range(kind, op_start, op_end).1,
        raw_source_range(kind, op_start, op_end).1 <= u32::MAX,
{
    if op_start < op_end {
        if let KindModel::Block(batches) = kind {
            let bounds = crate::op_index::boundaries(batches);
            crate::op_index::lemma_boundaries(batches);
            let p = op_start as nat;
            let q = (op_end - 1) as nat;
            lemma_before_lipschitz(bounds, p, q, bounds.len());
            lemma_before_bound(bounds, q, bounds.len());
            lemma_before_bound(bounds, p, bounds.len());
        }
    }
}

/// Padding operations stand at different places, so at most `q - p` of them stand from `p` to `q`.
proof fn lemma_before_lipschitz(bounds: Seq<nat>, p: nat, q: nat, k: nat)
    requires
        k <= bounds.len(),
        p <= q,
        forall|i: int, j: int| 0 <= i <= j < bounds.len() ==> bounds[i] <= bounds[j],
    ensures
        ({
            let before_p = crate::op_index::paddings_before(bounds, p, k);
            let before_q = crate::op_index::paddings_before(bounds, q, k);
            &&& before_p <= before_q <= before_p + (q - p)
            &&& k > 0 && bounds[k - 1] + (k - 1) < q ==> before_q - before_p <= if bounds[k - 1] + (k
                - 1) >= p {
                bounds[k - 1] + (k - 1) - p + 1
            } else {
                0int
            }
        }),
    decreases k,
{
    if k > 0 {
        lemma_before_lipschitz(bounds, p, q, (k - 1) as nat);
        if k > 1 {
            assert(bounds[k - 2] <= bounds[k - 1]);
        }
    }
}

/// No more padding operations stand before an index than there are places.
proof fn lemma_before_bound(bounds: Seq<nat>, p: nat, k: nat)
    requires
        k <= bounds.len(),
        forall|i: int, j: int| 0 <= i <= j < bounds.len() ==> bounds[i] <= bounds[j],
    ensures
        crate::op_index::paddings_before(bounds, p, k) <= p,
    decreases k,
{
    lemma_before_lipschitz(bounds, 0, p, k);
    lemma_none_before_zero(bounds, k);
}

proof fn lemma_none_before_zero(bounds: Seq<nat>, k: nat)
    ensures
        crate::op_index::paddings_before(bounds, 0, k) == 0,
    decreases k,
{
    if k > 0 {
        lemma_none_before_zero(bounds, (k - 1) as nat);
    }
}

/// The range of an occurrence is the same after finishing the forest and linking it statically.
pub proof fn law_source_range_round_trip(kind: KindModel, op_start: u32, op_end: u32)
    requires
        op_start <= op_end,
        crate::finalizer::final_source_range(kind, op_start, op_end).0 <= u32::MAX,
        crate::finalizer::final_source_range(kind, op_start, op_end).1 <= u32::MAX,
    ensures
        ({
            let (start, end) = crate::finalizer::final_source_range(kind, op_start, op_end);
            raw_source_range(kind, start as u32, end as u32) == (op_start as nat, op_end as nat)
        }),
{
    if op_start < op_end {
        if let KindModel::Block(batches) = kind {
            crate::op_index::law_adjust_round_trip(batches, op_start as nat);
            crate::op_index::law_adjust_round_trip(batches, (op_end - 1) as nat);
            if op_start < op_end - 1 {
                crate::op_index::law_adjust_monotone(
                    batches,
                    op_start as nat,
                    (op_end - 1) as nat,
                );
            }
        }
    }
}

/// The range of a call frame inside of a block is the same after finishing the forest and linking
/// it statically.
pub proof fn law_frame_range_round_trip(kind: KindModel, op_start: u32, op_end: u32)
    requires
        op_start <= op_end,
        match kind {
            KindModel::Block(batches) => crate::op_index::batches_wf(batches) && op_end <= raw_of(
                batches,
            ).len() && padded_len(batches) <= u32::MAX,
            _ => true,
        },
    ensures
        ({
            let (start, end) = crate::finalizer::final_frame_range(kind, op_start, op_end);
            raw_frame_range(kind, start as u32, end as u32) == (op_start as nat, op_end as nat)
        }),
{
    if op_start < op_end {
        if let KindModel::Block(batches) = kind {
            crate::op_index::law_adjust_round_trip(batches, op_start as nat);
            crate::op_index::law_adjust_round_trip(batches, op_end as nat);
            crate::op_index::law_adjust_inside(batches, op_start as nat);
            if op_end < raw_of(batches).len() {
                crate::op_index::law_adjust_inside(batches, op_end as nat);
                crate::op_index::law_adjust_monotone(batches, op_start as nat, op_end as nat);
            }
        }
    }
}

/// The index of an operation is the same after finishing the forest and linking it statically.
pub proof fn law_index_round_trip(kind: KindModel, op_idx: u32)
    requires
        crate::finalizer::final_index(kind, op_idx as nat) <= u32::MAX,
    ensures
        raw_index(kind, crate::finalizer::final_index(kind, op_idx as nat) as u32) == op_idx,
{
    if let KindModel::Block(batches) = kind {
        crate::op_index::law_adjust_round_trip(batches, op_idx as nat);
    }
}

// COMPUTING
// ================================================================================================

fn unadjust_op(node: &MastNode, op_idx: u32) -> (index: u32)
    requires
        countable(node@.kind),
    ensures
        index == raw_index(node@.kind, op_idx),
{
    match &node.kind {
        NodeKind::Block(batches) => unadjust_index(batches, op_idx),
        _ => op_idx,
    }
}

/// The range of an occurrence without padding.
pub fn unadjust_source_block_range(node: &MastNode, op_start: u32, op_end: u32) -> (range: (
    u32,
    u32,
))
    requires
        countable(node@.kind),
        op_start <= op_end,
    ensures
        range.0 == raw_source_range(node@.kind, op_start, op_end).0,
        range.1 == raw_source_range(node@.kind, op_start, op_end).1,
        range.0 <= range.1,
{
    proof {
        lemma_raw_range_ordered(node@.kind, op_start, op_end);
    }
    if op_start == op_end {
        return (op_start, op_end);
    }
    match &node.kind {
        NodeKind::Block(batches) => (
            unadjust_index(batches, op_start),
            unadjust_index(batches, op_end - 1) + 1,
        ),
        _ => (op_start, op_end),
    }
}

/// The range of a call frame without padding.
pub fn unadjust_call_frame_range(node: &MastNode, op_start: u32, op_end: u32) -> (range: (u32, u32))
    requires
        countable(node@.kind),
    ensures
        range.0 == raw_frame_range(node@.kind, op_start, op_end).0,
        range.1 == raw_frame_range(node@.kind, op_start, op_end).1,
{
    if op_start == op_end {
        return (op_start, op_end);
    }
    match &node.kind {
        NodeKind::Block(batches) => {
            let raw_op_count: usize = raw_operations(batches).len();
            let all: u64 = crate::finalizer::count_operations(batches);
            let start: u32 = unadjust_index(batches, op_start);
            let end: u32 = if op_end as u64 == all {
                raw_op_count as u32
            } else {
                unadjust_index(batches, op_end)
            };
            (start, end)
        },
        _ => (op_start, op_end),
    }
}

fn import_asm_ops(
    rows: &Vec<DebugSourceAsmOp>,
    node: &MastNode,
    tables: &DebugInfoTableRemapping,
) -> (res: Result<Vec<DebugSourceAsmOp>, MissingIndex>)
    requires
        countable(node@.kind),
    ensures
        match collect_all(rows@, raw_asm_op(node@.kind, tables@)) {
            Ok(done) => res is Ok && res->Ok_0@ == done,
            Err(e) => res is Err && res->Err_0 == e,
        },
{
    let ghost f = raw_asm_op(node@.kind, tables@);
    let mut done: Vec<DebugSourceAsmOp> = Vec::new();
    let mut i: usize = 0;
    while i < rows.len()
        invariant
            i <= rows@.len(),
            countable(node@.kind),
            f == raw_asm_op(node@.kind, tables@),
            collected(rows@, f, i as nat) == Ok::<Seq<DebugSourceAsmOp>, MissingIndex>(done@),
        decreases rows@.len() - i,
    {
        let row = rows[i];
        match remap_asm_op(row, unadjust_op(node, row.op_idx), tables) {
            Ok(row) => done.push(row),
            Err(e) => {
                proof {
                    lemma_collected_error(rows@, f, (i + 1) as nat, rows@.len());
                }
                return Err(e);
            },
        }
        i += 1;
    }
    Ok(done)
}

fn import_debug_var(row: DebugSourceVar, node: &MastNode, tables: &DebugInfoTableRemapping) -> (res:
    Result<DebugSourceVar, MissingIndex>)
    requires
        countable(node@.kind),
    ensures
        res == raw_debug_var(node@.kind, tables@)(row),
{
    let name_idx: u32 = match remapped(
        tables.string(row.name_idx),
        row.name_idx,
        DebugTable::String,
    ) {
        Ok(m) => m,
        Err(e) => {
            return Err(e);
        },
    };
    let location_idx: Option<u32> = match row.location_idx {
        None => None,
        Some(i) => match remapped(tables.location(i), i, DebugTable::Location) {
            Ok(m) => Some(m),
            Err(e) => {
                return Err(e);
            },
        },
    };
    let type_id: Option<u32> = match row.type_id {
        None => None,
        Some(i) => match remapped(tables.ty(i), i, DebugTable::Type) {
            Ok(m) => Some(m),
            Err(e) => {
                return Err(e);
            },
        },
    };
    Ok(
        DebugSourceVar {
            op_idx: unadjust_op(node, row.op_idx),
            name_idx,
            type_id,
            arg_idx: row.arg_idx,
            location_idx,
            value_idx: row.value_idx,
        },
    )
}

fn import_debug_vars(
    rows: &Vec<DebugSourceVar>,
    node: &MastNode,
    tables: &DebugInfoTableRemapping,
) -> (res: Result<Vec<DebugSourceVar>, MissingIndex>)
    requires
        countable(node@.kind),
    ensures
        match collect_all(rows@, raw_debug_var(node@.kind, tables@)) {
            Ok(done) => res is Ok && res->Ok_0@ == done,
            Err(e) => res is Err && res->Err_0 == e,
        },
{
    let ghost f = raw_debug_var(node@.kind, tables@);
    let mut done: Vec<DebugSourceVar> = Vec::new();
    let mut i: usize = 0;
    while i < rows.len()
        invariant
            i <= rows@.len(),
            countable(node@.kind),
            f == raw_debug_var(node@.kind, tables@),
            collected(rows@, f, i as nat) == Ok::<Seq<DebugSourceVar>, MissingIndex>(done@),
        decreases rows@.len() - i,
    {
        match import_debug_var(rows[i], node, tables) {
            Ok(row) => done.push(row),
            Err(e) => {
                proof {
                    lemma_collected_error(rows@, f, (i + 1) as nat, rows@.len());
                }
                return Err(e);
            },
        }
        i += 1;
    }
    Ok(done)
}

fn import_inline_call(
    row: DebugSourceInlineCall,
    node: &MastNode,
    tables: &DebugInfoTableRemapping,
) -> (res: Result<DebugSourceInlineCall, MissingIndex>)
    requires
        countable(node@.kind),
    ensures
        res == raw_inline_call(node@.kind, tables@)(row),
{
    let loc_idx: u32 = match remapped(
        tables.location(row.loc_idx),
        row.loc_idx,
        DebugTable::Location,
    ) {
        Ok(m) => m,
        Err(e) => {
            return Err(e);
        },
    };
    match remapped(tables.function(row.callee_idx), row.callee_idx, DebugTable::Function) {
        Ok(callee_idx) => Ok(
            DebugSourceInlineCall { op_idx: unadjust_op(node, row.op_idx), callee_idx, loc_idx },
        ),
        Err(e) => Err(e),
    }
}

fn import_inline_calls(
    rows: &Vec<DebugSourceInlineCall>,
    node: &MastNode,
    tables: &DebugInfoTableRemapping,
) -> (res: Result<Vec<DebugSourceInlineCall>, MissingIndex>)
    requires
        countable(node@.kind),
    ensures
        match collect_all(rows@, raw_inline_call(node@.kind, tables@)) {
            Ok(done) => res is Ok && res->Ok_0@ == done,
            Err(e) => res is Err && res->Err_0 == e,
        },
{
    let ghost f = raw_inline_call(node@.kind, tables@);
    let mut done: Vec<DebugSourceInlineCall> = Vec::new();
    let mut i: usize = 0;
    while i < rows.len()
        invariant
            i <= rows@.len(),
            countable(node@.kind),
            f == raw_inline_call(node@.kind, tables@),
            collected(rows@, f, i as nat) == Ok::<Seq<DebugSourceInlineCall>, MissingIndex>(done@),
        decreases rows@.len() - i,
    {
        match import_inline_call(rows[i], node, tables) {
            Ok(row) => done.push(row),
            Err(e) => {
                proof {
                    lemma_collected_error(rows@, f, (i + 1) as nat, rows@.len());
                }
                return Err(e);
            },
        }
        i += 1;
    }
    Ok(done)
}

fn import_call_frames(
    rows: &Vec<DebugSourceCallFrame>,
    node: &MastNode,
    tables: &DebugInfoTableRemapping,
) -> (res: Result<Vec<DebugSourceCallFrame>, MissingIndex>)
    requires
        countable(node@.kind),
    ensures
        match collect_all(rows@, raw_call_frame(node@.kind, tables@)) {
            Ok(done) => res is Ok && res->Ok_0@ == done,
            Err(e) => res is Err && res->Err_0 == e,
        },
{
    let ghost f = raw_call_frame(node@.kind, tables@);
    let mut done: Vec<DebugSourceCallFrame> = Vec::new();
    let mut i: usize = 0;
    while i < rows.len()
        invariant
            i <= rows@.len(),
            countable(node@.kind),
            f == raw_call_frame(node@.kind, tables@),
            collected(rows@, f, i as nat) == Ok::<Seq<DebugSourceCallFrame>, MissingIndex>(done@),
        decreases rows@.len() - i,
    {
        let row = rows[i];
        let (start, end) = unadjust_call_frame_range(node, row.op_start, row.op_end);
        match remap_call_frame(row, start, end, tables) {
            Ok(row) => done.push(row),
            Err(e) => {
                proof {
                    lemma_collected_error(rows@, f, (i + 1) as nat, rows@.len());
                }
                return Err(e);
            },
        }
        i += 1;
    }
    Ok(done)
}

fn import_functions(
    functions: &Vec<FunctionInfo>,
    tables: &DebugInfoTableRemapping,
    source: u32,
    mast_root: Word,
) -> (list: Vec<u32>)
    requires
        functions@.len() <= u32::MAX,
    ensures
        list@ == occurrence_functions(functions@, tables@, source, mast_root, functions@.len()),
{
    let mut list: Vec<u32> = Vec::new();
    let mut i: usize = 0;
    while i < functions.len()
        invariant
            i <= functions@.len() <= u32::MAX,
            list@ == occurrence_functions(functions@, tables@, source, mast_root, i as nat),
        decreases functions@.len() - i,
    {
        let belongs = match functions[i].source_node {
            Some(s) => s == source,
            None => functions[i].mast_root == mast_root,
        };
        if belongs {
            if let Some(index) = tables.function(i as u32) {
                list.push(index);
            }
        }
        i += 1;
    }
    list
}

/// The rows of an occurrence of a package, for the builder.
///
/// Refuses rows that refer to entries that the tables do not have.
pub fn package_source_metadata(
    forest: &MastForest,
    package: &PackageDebugInfo,
    tables: &DebugInfoTableRemapping,
    source: u32,
) -> (res: Result<StaticSourceMetadata, MissingIndex>)
    requires
        source < package@.nodes.len(),
        range_ok(package@.nodes[source as int]),
        package@.nodes[source as int].exec_node < forest@.nodes.len(),
        countable(forest@.nodes[package@.nodes[source as int].exec_node as int].kind),
        package@.functions.len() <= u32::MAX,
    ensures
        match source_metadata(forest@.nodes, package@, tables@, source) {
            Ok(metadata) => res is Ok && res->Ok_0@ == metadata && metadata.op_start
                <= metadata.op_end,
            Err(e) => res is Err && res->Err_0 == e,
        },
{
    let row = &package.nodes[source as usize];
    assert(package@.nodes[source as int] == row@);
    let node = &forest.nodes[row.exec_node as usize];
    assert(forest@.nodes[row.exec_node as int] == node@);
    let asm_ops = match import_asm_ops(&row.asm_ops, node, tables) {
        Ok(rows) => rows,
        Err(e) => {
            return Err(e);
        },
    };
    let debug_vars = match import_debug_vars(&row.debug_vars, node, tables) {
        Ok(rows) => rows,
        Err(e) => {
            return Err(e);
        },
    };
    let inline_calls = match import_inline_calls(&row.inline_calls, node, tables) {
        Ok(rows) => rows,
        Err(e) => {
            return Err(e);
        },
    };
    let call_frames = match import_call_frames(&row.call_frames, node, tables) {
        Ok(rows) => rows,
        Err(e) => {
            return Err(e);
        },
    };
    let (op_start, op_end) = unadjust_source_block_range(node, row.op_start, row.op_end);
    let functions = import_functions(&package.functions, tables, source, node.digest);
    Ok(
        StaticSourceMetadata {
            op_start,
            op_end,
            asm_ops,
            debug_vars,
            inline_calls,
            call_frames,
            functions,
        },
    )
}

} // verus!
