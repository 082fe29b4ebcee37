//! Source occurrences of execution nodes and the tables that their rows refer to.
//!
//! Rows refer to strings, locations, types and functions by index into tables.

use vstd::prelude::*;

verus! {

// ROWS
// ================================================================================================

/// An assembly operation that starts at an operation of a node.
#[derive(Clone, Copy, PartialEq, Eq, Structural, Debug)]
pub struct DebugSourceAsmOp {
    pub op_idx: u32,
    pub location_idx: Option<u32>,
    pub context_name_idx: u32,
    pub op_name_idx: u32,
    pub num_cycles: u8,
}

/// A variable that is live from an operation of a node on.
#[derive(Clone, Copy, PartialEq, Eq, Structural, Debug)]
pub struct DebugSourceVar {
    pub op_idx: u32,
    pub name_idx: u32,
    pub type_id: Option<u32>,
    pub arg_idx: Option<u32>,
    pub location_idx: Option<u32>,
    pub value_idx: u32,
}

/// A call that was inlined around an operation of a node.
#[derive(Clone, Copy, PartialEq, Eq, Structural, Debug)]
pub struct DebugSourceInlineCall {
    pub op_idx: u32,
    pub callee_idx: u32,
    pub loc_idx: u32,
}

/// A range of operations of a node that belongs to a function.
#[derive(Clone, Copy, PartialEq, Eq, Structural, Debug)]
pub struct DebugSourceCallFrame {
    pub op_start: u32,
    pub op_end: u32,
    pub function_idx: u32,
    pub inherited_inline_calls: u32,
}

/// One occurrence of an execution node in the source.
#[derive(Clone, PartialEq, Eq, Debug)]
pub struct SourceNode {
    pub exec_node: u32,
    pub children: Vec<u32>,
    pub op_start: u32,
    pub op_end: u32,
    pub asm_ops: Vec<DebugSourceAsmOp>,
    pub debug_vars: Vec<DebugSourceVar>,
    pub inline_calls: Vec<DebugSourceInlineCall>,
    pub call_frames: Vec<DebugSourceCallFrame>,
}

/// The contents of a [`SourceNode`].
pub ghost struct SourceModel {
    pub exec_node: u32,
    pub children: Seq<u32>,
    pub op_start: u32,
    pub op_end: u32,
    pub asm_ops: Seq<DebugSourceAsmOp>,
    pub debug_vars: Seq<DebugSourceVar>,
    pub inline_calls: Seq<DebugSourceInlineCall>,
    pub call_frames: Seq<DebugSourceCallFrame>,
}

impl SourceNode {
    pub open spec fn view(&self) -> SourceModel {
        SourceModel {
            exec_node: self.exec_node,
            children: self.children@,
            op_start: self.op_start,
            op_end: self.op_end,
            asm_ops: self.asm_ops@,
            debug_vars: self.debug_vars@,
            inline_calls: self.inline_calls@,
            call_frames: self.call_frames@,
        }
    }

    /// Copies an occurrence.
    pub fn copy(&self) -> (copy: SourceNode)
        ensures
            copy@ == self@,
    {
        SourceNode {
            exec_node: self.exec_node,
            children: copy_vec(&self.children),
            op_start: self.op_start,
            op_end: self.op_end,
            asm_ops: copy_vec(&self.asm_ops),
            debug_vars: copy_vec(&self.debug_vars),
            inline_calls: copy_vec(&self.inline_calls),
            call_frames: copy_vec(&self.call_frames),
        }
    }
}

/// The contents of a list of occurrences.
pub open spec fn source_models(nodes: Seq<SourceNode>) -> Seq<SourceModel> {
    Seq::new(nodes.len(), |i: int| nodes[i]@)
}

/// Copies a list of plain values.
pub fn copy_vec<T: Copy>(items: &Vec<T>) -> (copy: Vec<T>)
    ensures
        copy@ == items@,
{
    let mut copy: Vec<T> = Vec::new();
    let mut i: usize = 0;
    while i < items.len()
        invariant
            i <= items.len(),
            copy@ =~= items@.take(i as int),
        decreases items.len() - i,
    {
        copy.push(items[i]);
        i += 1;
    }
    assert(copy@ =~= items@);
    copy
}

// TABLES
// ================================================================================================

/// The tables that rows refer to.
#[derive(Clone, Copy, PartialEq, Eq, Structural, Debug)]
pub enum DebugTable {
    String,
    Location,
    Type,
    Function,
}

/// A row refers to an index that its table does not have.
#[derive(Clone, Copy, PartialEq, Eq, Structural, Debug)]
pub struct MissingIndex {
    pub table: DebugTable,
    pub index: u32,
}

/// Where the entries of each table went when the tables were merged into others.
#[derive(Clone, PartialEq, Eq, Debug)]
pub struct DebugInfoTableRemapping {
    pub strings: Vec<Option<u32>>,
    pub locations: Vec<Option<u32>>,
    pub types: Vec<Option<u32>>,
    pub functions: Vec<Option<u32>>,
}

/// The contents of a [`DebugInfoTableRemapping`].
pub ghost struct TablesModel {
    pub strings: Seq<Option<u32>>,
    pub locations: Seq<Option<u32>>,
    pub types: Seq<Option<u32>>,
    pub functions: Seq<Option<u32>>,
}

impl DebugInfoTableRemapping {
    pub open spec fn view(&self) -> TablesModel {
        TablesModel {
            strings: self.strings@,
            locations: self.locations@,
            types: self.types@,
            functions: self.functions@,
        }
    }

    /// A copy of the remapping.
    pub fn copy(&self) -> (copy: DebugInfoTableRemapping)
        ensures
            copy@ == self@,
    {
        DebugInfoTableRemapping {
            strings: copy_vec(&self.strings),
            locations: copy_vec(&self.locations),
            types: copy_vec(&self.types),
            functions: copy_vec(&self.functions),
        }
    }

    pub fn string(&self, index: u32) -> (mapped: Option<u32>)
        ensures
            mapped == lookup(self@.strings, index),
    {
        find_mapped(&self.strings, index)
    }

    pub fn location(&self, index: u32) -> (mapped: Option<u32>)
        ensures
            mapped == lookup(self@.locations, index),
    {
        find_mapped(&self.locations, index)
    }

    pub fn ty(&self, index: u32) -> (mapped: Option<u32>)
        ensures
            mapped == lookup(self@.types, index),
    {
        find_mapped(&self.types, index)
    }

    pub fn function(&self, index: u32) -> (mapped: Option<u32>)
        ensures
            mapped == lookup(self@.functions, index),
    {
        find_mapped(&self.functions, index)
    }
}

/// Where entry `index` of a table went.
pub open spec fn lookup(table: Seq<Option<u32>>, index: u32) -> Option<u32> {
    if index < table.len() {
        table[index as int]
    } else {
        None
    }
}

fn find_mapped(table: &Vec<Option<u32>>, index: u32) -> (mapped: Option<u32>)
    ensures
        mapped == lookup(table@, index),
{
    if (index as usize) < table.len() {
        table[index as usize]
    } else {
        None
    }
}

/// The new index, or what is missing.
pub open spec fn remapped_spec(mapped: Option<u32>, index: u32, table: DebugTable) -> Result<
    u32,
    MissingIndex,
> {
    match mapped {
        Some(m) => Ok(m),
        None => Err(MissingIndex { table, index }),
    }
}

/// The new index of an entry; an entry that has none is missing.
pub fn remapped(mapped: Option<u32>, index: u32, table: DebugTable) -> (res: Result<
    u32,
    MissingIndex,
>)
    ensures
        res == remapped_spec(mapped, index, table),
{
    match mapped {
        Some(m) => Ok(m),
        None => Err(MissingIndex { table, index }),
    }
}

/// The new index of an entry that a row may leave out.
pub open spec fn remapped_option(
    table: Seq<Option<u32>>,
    index: Option<u32>,
    name: DebugTable,
) -> Result<Option<u32>, MissingIndex> {
    match index {
        None => Ok(None),
        Some(i) => match lookup(table, i) {
            Some(m) => Ok(Some(m)),
            None => Err(MissingIndex { table: name, index: i }),
        },
    }
}

// ROWS UNDER A REMAPPING
// ================================================================================================

/// An assembly operation at `op_idx` with its indices remapped.
pub open spec fn asm_op_in(row: DebugSourceAsmOp, op_idx: u32, tables: TablesModel) -> Result<
    DebugSourceAsmOp,
    MissingIndex,
> {
    match remapped_option(tables.locations, row.location_idx, DebugTable::Location) {
        Err(e) => Err(e),
        Ok(location_idx) => match remapped_spec(
            lookup(tables.strings, row.context_name_idx),
            row.context_name_idx,
            DebugTable::String,
        ) {
            Err(e) => Err(e),
            Ok(context_name_idx) => match remapped_spec(
                lookup(tables.strings, row.op_name_idx),
                row.op_name_idx,
                DebugTable::String,
            ) {
                Err(e) => Err(e),
                Ok(op_name_idx) => Ok(
                    DebugSourceAsmOp {
                        op_idx,
                        location_idx,
                        context_name_idx,
                        op_name_idx,
                        num_cycles: row.num_cycles,
                    },
                ),
            },
        },
    }
}

pub fn remap_asm_op(row: DebugSourceAsmOp, op_idx: u32, tables: &DebugInfoTableRemapping) -> (res:
    Result<DebugSourceAsmOp, MissingIndex>)
    ensures
        res == asm_op_in(row, op_idx, tables@),
{
    let location_idx: Option<u32> = match row.location_idx {
        None => None,
        Some(i) => match remapped(tables.location(i), i, DebugTable::Location) {
            Ok(m) => Some(m),
            Err(e) => {
                return Err(e);
            },
        },
    };
    let context_name_idx: u32 = match remapped(
        tables.string(row.context_name_idx),
        row.context_name_idx,
        DebugTable::String,
    ) {
        Ok(m) => m,
        Err(e) => {
            return Err(e);
        },
    };
    let op_name_idx: u32 = match remapped(
        tables.string(row.op_name_idx),
        row.op_name_idx,
        DebugTable::String,
    ) {
        Ok(m) => m,
        Err(e) => {
            return Err(e);
        },
    };
    Ok(
        DebugSourceAsmOp {
            op_idx,
            location_idx,
            context_name_idx,
            op_name_idx,
            num_cycles: row.num_cycles,
        },
    )
}

/// The indices of a variable row, remapped in the order location, name, type.
pub open spec fn debug_var_in(row: DebugSourceVar, op_idx: u32, tables: TablesModel) -> Result<
    DebugSourceVar,
    MissingIndex,
> {
    match remapped_option(tables.locations, row.location_idx, DebugTable::Location) {
        Err(e) => Err(e),
        Ok(location_idx) => match remapped_spec(
            lookup(tables.strings, row.name_idx),
            row.name_idx,
            DebugTable::String,
        ) {
            Err(e) => Err(e),
            Ok(name_idx) => match remapped_option(tables.types, row.type_id, DebugTable::Type) {
                Err(e) => Err(e),
                Ok(type_id) => Ok(
                    DebugSourceVar {
                        op_idx,
                        name_idx,
                        type_id,
                        arg_idx: row.arg_idx,
                        location_idx,
                        value_idx: row.value_idx,
                    },
                ),
            },
        },
    }
}

pub fn remap_debug_var(row: DebugSourceVar, op_idx: u32, tables: &DebugInfoTableRemapping) -> (res:
    Result<DebugSourceVar, MissingIndex>)
    ensures
        res == debug_var_in(row, op_idx, tables@),
{
    let location_idx: Option<u32> = match row.location_idx {
        None => None,
        Some(i) => match remapped(tables.location(i), i, DebugTable::Location) {
            Ok(m) => Some(m),
            Err(e) => {
                return Err(e);
            },
        },
    };
    let name_idx: u32 = match remapped(
        tables.string(row.name_idx),
        row.name_idx,
        DebugTable::String,
    ) {
        Ok(m) => m,
        Err(e) => {
            return Err(e);
        },
    };
    let type_id: Option<u32> = match row.type_id {
        None => None,
        Some(i) => match remapped(tables.ty(i), i, DebugTable::Type) {
            Ok(m) => Some(m),
            Err(e) => {
                return Err(e);
            },
        },
    };
    Ok(
        DebugSourceVar {
            op_idx,
            name_idx,
            type_id,
            arg_idx: row.arg_idx,
            location_idx,
            value_idx: row.value_idx,
        },
    )
}

/// The indices of an inlined call, remapped in the order function, location.
pub open spec fn inline_call_in(
    row: DebugSourceInlineCall,
    op_idx: u32,
    tables: TablesModel,
) -> Result<DebugSourceInlineCall, MissingIndex> {
    match remapped_spec(
        lookup(tables.functions, row.callee_idx),
        row.callee_idx,
        DebugTable::Function,
    ) {
        Err(e) => Err(e),
        Ok(callee_idx) => match remapped_spec(
            lookup(tables.locations, row.loc_idx),
            row.loc_idx,
            DebugTable::Location,
        ) {
            Err(e) => Err(e),
            Ok(loc_idx) => Ok(DebugSourceInlineCall { op_idx, callee_idx, loc_idx }),
        },
    }
}

pub fn remap_inline_call(
    row: DebugSourceInlineCall,
    op_idx: u32,
    tables: &DebugInfoTableRemapping,
) -> (res: Result<DebugSourceInlineCall, MissingIndex>)
    ensures
        res == inline_call_in(row, op_idx, tables@),
{
    let callee_idx: u32 = match remapped(
        tables.function(row.callee_idx),
        row.callee_idx,
        DebugTable::Function,
    ) {
        Ok(m) => m,
        Err(e) => {
            return Err(e);
        },
    };
    match remapped(tables.location(row.loc_idx), row.loc_idx, DebugTable::Location) {
        Ok(loc_idx) => Ok(DebugSourceInlineCall { op_idx, callee_idx, loc_idx }),
        Err(e) => Err(e),
    }
}

/// A call frame over a range with its function remapped.
pub open spec fn call_frame_in(
    row: DebugSourceCallFrame,
    op_start: u32,
    op_end: u32,
    tables: TablesModel,
) -> Result<DebugSourceCallFrame, MissingIndex> {
    match remapped_spec(
        lookup(tables.functions, row.function_idx),
        row.function_idx,
        DebugTable::Function,
    ) {
        Err(e) => Err(e),
        Ok(function_idx) => Ok(
            DebugSourceCallFrame {
                op_start,
                op_end,
                function_idx,
                inherited_inline_calls: row.inherited_inline_calls,
            },
        ),
    }
}

pub fn remap_call_frame(
    row: DebugSourceCallFrame,
    op_start: u32,
    op_end: u32,
    tables: &DebugInfoTableRemapping,
) -> (res: Result<DebugSourceCallFrame, MissingIndex>)
    ensures
        res == call_frame_in(row, op_start, op_end, tables@),
{
    match remapped(tables.function(row.function_idx), row.function_idx, DebugTable::Function) {
        Ok(function_idx) => Ok(
            DebugSourceCallFrame {
                op_start,
                op_end,
                function_idx,
                inherited_inline_calls: row.inherited_inline_calls,
            },
        ),
        Err(e) => Err(e),
    }
}

// SEQUENCES OF ROWS
// ================================================================================================

/// The first `k` items under `f`, or the first refusal.
pub open spec fn collected<A, B, E>(items: Seq<A>, f: spec_fn(A) -> Result<B, E>, k: nat) -> Result<
    Seq<B>,
    E,
>
    decreases k,
{
    if k == 0 {
        Ok(Seq::empty())
    } else {
        match collected(items, f, (k - 1) as nat) {
            Err(e) => Err(e),
            Ok(done) => match f(items[k - 1]) {
                Err(e) => Err(e),
                Ok(item) => Ok(done.push(item)),
            },
        }
    }
}

/// All items under `f`, or the first refusal.
pub open spec fn collect_all<A, B, E>(items: Seq<A>, f: spec_fn(A) -> Result<B, E>) -> Result<
    Seq<B>,
    E,
> {
    collected(items, f, items.len())
}

pub proof fn lemma_collected_error<A, B, E>(
    items: Seq<A>,
    f: spec_fn(A) -> Result<B, E>,
    k: nat,
    n: nat,
)
    requires
        k <= n,
        collected(items, f, k) is Err,
    ensures
        collected(items, f, n) == collected(items, f, k),
    decreases n - k,
{
    if k < n {
        lemma_collected_error(items, f, k, (n - 1) as nat);
    }
}

/// What was collected is each item under `f`, in order.
pub proof fn lemma_collected_items<A, B, E>(items: Seq<A>, f: spec_fn(A) -> Result<B, E>, k: nat)
    ensures
        collected(items, f, k) is Ok ==> {
            let done = collected(items, f, k)->Ok_0;
            done.len() == k && forall|i: int|
                0 <= i < k ==> f(items[i]) == Ok::<B, E>(#[trigger] done[i])
        },
    decreases k,
{
    if k > 0 {
        lemma_collected_items(items, f, (k - 1) as nat);
        if collected(items, f, k) is Ok {
            let before = collected(items, f, (k - 1) as nat)->Ok_0;
            let done = collected(items, f, k)->Ok_0;
            assert forall|i: int| 0 <= i < k implies f(items[i]) == Ok::<B, E>(
                #[trigger] done[i],
            ) by {
                if i < k - 1 {
                    assert(done[i] == before[i]);
                }
            }
        }
    }
}

} // verus!
