//! What linked rows name: the names, places, types and functions that they named in their package.

use vstd::prelude::*;

use crate::builder::{entries_kept, extends, lemma_recorded_occurrence, BuilderModel};
use crate::debug_info::{
    lemma_collected_items, lookup, DebugSourceAsmOp, DebugSourceCallFrame, DebugSourceInlineCall,
    DebugSourceVar, MissingIndex, SourceModel, TablesModel,
};
use crate::debug_types::{is_name, DebugPrimitiveType, TypeRow};
use crate::felt::Word;
use crate::graph::reaches;
use crate::merge::RowsModel;
use crate::node::NodeModel;
use crate::pending::{MastNodeRef, MastNodeUse};
use crate::registry::{is_file, DebugTablesModel};
use crate::source_graph::FunctionInfo;
use crate::static_import::{
    children_uses, copied_as, copied_between, copied_tree, linked_as, package_linked,
    sound_children, static_draft, use_sources, LinkPlan, StaticLibraries,
};
use crate::static_metadata::{
    raw_asm_op, raw_call_frame, raw_debug_var, raw_inline_call, source_metadata, MetadataModel,
    PackageModel,
};
use crate::table_import::{
    behind, files_mapped, function_ok, functions_closed, imported, is_import,
    lemma_with_tables_extends, locations_mapped, moved_function, moved_location, moved_row, row_ok,
    slot_of, strings_mapped, tables_closed, tables_imported, with_slot, with_tables,
};

verus! {

// WHAT ENTRIES NAME
// ================================================================================================

/// The text of a name.
pub open spec fn text_at(tables: DebugTablesModel, idx: u32) -> Option<Seq<char>> {
    if idx < tables.section.strings.len() {
        Some(tables.section.strings[idx as int])
    } else {
        None
    }
}

/// The address of a file.
pub open spec fn uri_at(tables: DebugTablesModel, idx: u32) -> Option<Seq<char>> {
    if idx < tables.files.len() {
        text_at(tables, tables.files[idx as int])
    } else {
        None
    }
}

/// The file of a location and its range in it.
pub open spec fn place_at(tables: DebugTablesModel, idx: u32) -> Option<
    (Option<Seq<char>>, u32, u32),
> {
    if idx < tables.locations.len() {
        let location = tables.locations[idx as int];
        Some((uri_at(tables, location.file_idx), location.start, location.end))
    } else {
        None
    }
}

/// A type with the types that it refers to, unfolded to some depth. Types refer to one another
/// freely, so that a type may have no full unfolding.
pub ghost enum TypeTree {
    /// A type below the depth.
    Deeper,
    /// An index without a row.
    Missing,
    Primitive(DebugPrimitiveType),
    Unknown,
    Pointer(Box<TypeTree>),
    Array(Box<TypeTree>, Option<u32>),
    Struct(Option<Seq<char>>, u32, Seq<FieldTree>),
    Function(Option<Box<TypeTree>>, Seq<TypeTree>),
}

pub ghost struct FieldTree {
    pub name: Option<Seq<char>>,
    pub ty: TypeTree,
    pub offset: u32,
}

/// The type at an index, unfolded to a depth.
pub open spec fn type_at(tables: DebugTablesModel, idx: u32, depth: nat) -> TypeTree
    decreases depth,
{
    if depth == 0 {
        TypeTree::Deeper
    } else if idx >= tables.section.types.len() {
        TypeTree::Missing
    } else {
        let below = (depth - 1) as nat;
        match tables.section.types[idx as int] {
            TypeRow::Primitive(p) => TypeTree::Primitive(p),
            TypeRow::Unknown => TypeTree::Unknown,
            TypeRow::Pointer(p) => TypeTree::Pointer(Box::new(type_at(tables, p, below))),
            TypeRow::Array(e, count) => TypeTree::Array(Box::new(type_at(tables, e, below)), count),
            TypeRow::Struct(name, size, fields) => TypeTree::Struct(
                text_at(tables, name),
                size,
                Seq::new(
                    fields.len(),
                    |i: int|
                        FieldTree {
                            name: text_at(tables, fields[i].name_idx),
                            ty: type_at(tables, fields[i].type_idx, below),
                            offset: fields[i].offset,
                        },
                ),
            ),
            TypeRow::Function(ret, params) => TypeTree::Function(
                match ret {
                    Some(r) => Some(Box::new(type_at(tables, r, below))),
                    None => None,
                },
                Seq::new(params.len(), |i: int| type_at(tables, params[i], below)),
            ),
        }
    }
}

/// Two functions are named alike, declared at the same place, of the same type to every depth, and
/// have the same code.
pub open spec fn same_function(
    from: DebugTablesModel,
    f: FunctionInfo,
    to: DebugTablesModel,
    g: FunctionInfo,
) -> bool {
    &&& text_at(from, f.name_idx) == text_at(to, g.name_idx)
    &&& same_text(from, f.linkage_name_idx, to, g.linkage_name_idx)
    &&& uri_at(from, f.file_idx) == uri_at(to, g.file_idx)
    &&& f.line == g.line
    &&& f.column == g.column
    &&& same_type(from, f.type_idx, to, g.type_idx)
    &&& f.mast_root == g.mast_root
}

pub open spec fn same_text(
    from: DebugTablesModel,
    i: Option<u32>,
    to: DebugTablesModel,
    j: Option<u32>,
) -> bool {
    match (i, j) {
        (Some(i), Some(j)) => text_at(from, i) == text_at(to, j),
        (None, None) => true,
        _ => false,
    }
}

pub open spec fn same_place(
    from: DebugTablesModel,
    i: Option<u32>,
    to: DebugTablesModel,
    j: Option<u32>,
) -> bool {
    match (i, j) {
        (Some(i), Some(j)) => place_at(from, i) == place_at(to, j),
        (None, None) => true,
        _ => false,
    }
}

pub open spec fn same_type(
    from: DebugTablesModel,
    i: Option<u32>,
    to: DebugTablesModel,
    j: Option<u32>,
) -> bool {
    match (i, j) {
        (Some(i), Some(j)) => forall|depth: nat| #[trigger]
            type_at(from, i, depth) == type_at(to, j, depth),
        (None, None) => true,
        _ => false,
    }
}

/// Function `i` of one list is function `j` of another.
pub open spec fn same_function_at(
    from: DebugTablesModel,
    functions: Seq<FunctionInfo>,
    i: u32,
    to: DebugTablesModel,
    all: Seq<FunctionInfo>,
    j: u32,
) -> bool {
    i < functions.len() && j < all.len() && same_function(
        from,
        functions[i as int],
        to,
        all[j as int],
    )
}

// WHERE ENTRIES WENT
// ================================================================================================

/// The entries of a package are in tables: where `map` and `files` say, and types behind `base`
/// others.
pub open spec fn placed(
    package: PackageModel,
    tables: DebugTablesModel,
    functions: Seq<FunctionInfo>,
    map: TablesModel,
    files: Seq<Option<u32>>,
    base: nat,
) -> bool {
    let from = package.tables;
    &&& tables_closed(from)
    &&& functions_closed(package.functions, from)
    &&& strings_mapped(
        from.section.strings,
        tables.section,
        map.strings,
        from.section.strings.len() as int,
    )
    &&& files_mapped(from, tables, files, from.files.len() as int)
    &&& locations_mapped(
        from.locations,
        tables.locations,
        files,
        map.locations,
        from.locations.len() as int,
    )
    &&& map.types == behind(base, from.section.types.len())
    &&& base + from.section.types.len() <= tables.section.types.len()
    &&& base + from.section.types.len() <= u32::MAX
    &&& forall|i: int|
        0 <= i < from.section.types.len() ==> #[trigger] tables.section.types[base + i]
            == moved_row(from.section.types[i], map.strings, base)
    &&& map.functions.len() == package.functions.len()
    &&& forall|i: int|
        0 <= i < package.functions.len() ==> function_placed(
            package.functions[i],
            functions,
            #[trigger] map.functions[i],
            map,
            files,
            base,
        )
}

pub open spec fn function_placed(
    function: FunctionInfo,
    functions: Seq<FunctionInfo>,
    idx: Option<u32>,
    map: TablesModel,
    files: Seq<Option<u32>>,
    base: nat,
) -> bool {
    idx matches Some(j) && j < functions.len() && functions[j as int] == (FunctionInfo {
        source_node: functions[j as int].source_node,
        ..moved_function(function, map.strings, files, base)
    })
}

/// The entries of a package are in tables, where `map` says.
#[verifier::opaque]
pub open spec fn is_placed(
    package: PackageModel,
    tables: DebugTablesModel,
    functions: Seq<FunctionInfo>,
    map: TablesModel,
) -> bool {
    exists|files: Seq<Option<u32>>, base: nat| #[trigger]
        placed(package, tables, functions, map, files, base)
}

/// An import places the entries of a package.
proof fn lemma_import_places(
    b: BuilderModel,
    after: BuilderModel,
    library: int,
    package: PackageModel,
    map: TablesModel,
)
    requires
        tables_imported(b, after, library, package, map),
    ensures
        is_placed(package, after.tables, after.graph.functions, map),
{
    reveal(is_import);
    reveal(is_placed);
    let files = choose|files: Seq<Option<u32>>| #[trigger]
        imported(
            package.tables,
            package.functions,
            b.tables,
            after.tables,
            b.graph.functions,
            after.graph.functions,
            map,
            files,
        );
    let base = b.tables.section.types.len();
    let known = b.graph.functions.len();
    assert forall|i: int| 0 <= i < package.functions.len() implies function_placed(
        package.functions[i],
        after.graph.functions,
        #[trigger] map.functions[i],
        map,
        files,
        base,
    ) by {
        assert(after.graph.functions[known + i] == moved_function(
            package.functions[i],
            map.strings,
            files,
            base,
        ));
    }
    assert(placed(package, after.tables, after.graph.functions, map, files, base));
}

/// Entries that are in the tables of a builder stay where they are.
pub proof fn law_placed_entries_stay(
    package: PackageModel,
    b: BuilderModel,
    after: BuilderModel,
    map: TablesModel,
)
    requires
        entries_kept(b, after),
        is_placed(package, b.tables, b.graph.functions, map),
    ensures
        is_placed(package, after.tables, after.graph.functions, map),
{
    reveal(entries_kept);
    reveal(is_placed);
    let (files, base) = choose|files: Seq<Option<u32>>, base: nat| #[trigger]
        placed(package, b.tables, b.graph.functions, map, files, base);
    let from = package.tables;
    assert forall|i: int| 0 <= i < from.section.strings.len() implies ((
    #[trigger] map.strings[i]) matches Some(idx) && is_name(
        after.tables.section,
        idx,
        from.section.strings[i],
    )) by {
        assert(is_name(b.tables.section, map.strings[i]->0, from.section.strings[i]));
    }
    assert forall|i: int| 0 <= i < from.files.len() implies ((#[trigger] files[i]) matches Some(
        idx,
    ) && is_file(after.tables, idx, from.section.strings[from.files[i] as int])) by {
        let idx = files[i]->0;
        assert(is_file(b.tables, idx, from.section.strings[from.files[i] as int]));
        assert(after.tables.files[idx as int] == b.tables.files[idx as int]);
    }
    assert forall|i: int| 0 <= i < from.locations.len() implies ((
    #[trigger] map.locations[i]) matches Some(idx) && idx < after.tables.locations.len()
        && after.tables.locations[idx as int] == moved_location(from.locations[i], files)) by {
        let idx = map.locations[i]->0;
        assert(after.tables.locations[idx as int] == b.tables.locations[idx as int]);
    }
    assert forall|i: int| 0 <= i < from.section.types.len() implies #[trigger] after.tables.section.types[base
        + i] == moved_row(from.section.types[i], map.strings, base) by {
        assert(after.tables.section.types[base + i] == b.tables.section.types[base + i]);
    }
    assert forall|i: int| 0 <= i < package.functions.len() implies function_placed(
        package.functions[i],
        after.graph.functions,
        #[trigger] map.functions[i],
        map,
        files,
        base,
    ) by {
        let j = map.functions[i]->0 as int;
        assert(function_placed(
            package.functions[i],
            b.graph.functions,
            map.functions[i],
            map,
            files,
            base,
        ));
        assert(after.graph.functions[j] == (FunctionInfo {
            source_node: after.graph.functions[j].source_node,
            ..b.graph.functions[j]
        }));
    }
    assert(placed(package, after.tables, after.graph.functions, map, files, base));
}

// READING MOVED ENTRIES
// ================================================================================================

/// A name reads the same where it went.
proof fn lemma_text_moved(
    package: PackageModel,
    tables: DebugTablesModel,
    functions: Seq<FunctionInfo>,
    map: TablesModel,
    files: Seq<Option<u32>>,
    base: nat,
    i: u32,
)
    requires
        placed(package, tables, functions, map, files, base),
        i < package.tables.section.strings.len(),
    ensures
        lookup(map.strings, i) matches Some(j) && text_at(tables, j) == text_at(package.tables, i),
{
    assert(map.strings[i as int] is Some);
}

proof fn lemma_uri_moved(
    package: PackageModel,
    tables: DebugTablesModel,
    functions: Seq<FunctionInfo>,
    map: TablesModel,
    files: Seq<Option<u32>>,
    base: nat,
    i: u32,
)
    requires
        placed(package, tables, functions, map, files, base),
        i < package.tables.files.len(),
    ensures
        lookup(files, i) matches Some(j) && uri_at(tables, j) == uri_at(package.tables, i),
{
    assert(files[i as int] is Some);
    assert(package.tables.files[i as int] < package.tables.section.strings.len());
}

proof fn lemma_place_moved(
    package: PackageModel,
    tables: DebugTablesModel,
    functions: Seq<FunctionInfo>,
    map: TablesModel,
    files: Seq<Option<u32>>,
    base: nat,
    i: u32,
)
    requires
        placed(package, tables, functions, map, files, base),
        i < package.tables.locations.len(),
    ensures
        lookup(map.locations, i) matches Some(j) && place_at(tables, j) == place_at(
            package.tables,
            i,
        ),
{
    assert(map.locations[i as int] is Some);
    lemma_uri_moved(
        package,
        tables,
        functions,
        map,
        files,
        base,
        package.tables.locations[i as int].file_idx,
    );
}

/// A type reads the same where it went, to every depth.
proof fn lemma_type_moved(
    package: PackageModel,
    tables: DebugTablesModel,
    functions: Seq<FunctionInfo>,
    map: TablesModel,
    files: Seq<Option<u32>>,
    base: nat,
    i: u32,
    depth: nat,
)
    requires
        placed(package, tables, functions, map, files, base),
        i < package.tables.section.types.len(),
    ensures
        type_at(tables, (base + i) as u32, depth) == type_at(package.tables, i, depth),
    decreases depth,
{
    let from = package.tables;
    if depth > 0 {
        let below = (depth - 1) as nat;
        let row = from.section.types[i as int];
        assert(tables.section.types[base + i as int] == moved_row(row, map.strings, base));
        assert(row_ok(row, from.section.strings.len(), from.section.types.len()));
        let here = type_at(from, i, depth);
        let there = type_at(tables, (base + i) as u32, depth);
        match row {
            TypeRow::Pointer(p) => {
                lemma_type_moved(package, tables, functions, map, files, base, p, below);
            },
            TypeRow::Array(e, _) => {
                lemma_type_moved(package, tables, functions, map, files, base, e, below);
            },
            TypeRow::Struct(name, _, fields) => {
                lemma_text_moved(package, tables, functions, map, files, base, name);
                assert forall|k: int| 0 <= k < fields.len() implies type_at(
                    tables,
                    (base + fields[k].type_idx) as u32,
                    below,
                ) == type_at(from, (#[trigger] fields[k]).type_idx, below) && text_at(
                    tables,
                    lookup(map.strings, fields[k].name_idx)->0,
                ) == text_at(from, fields[k].name_idx) by {
                    lemma_text_moved(
                        package,
                        tables,
                        functions,
                        map,
                        files,
                        base,
                        fields[k].name_idx,
                    );
                    lemma_type_moved(
                        package,
                        tables,
                        functions,
                        map,
                        files,
                        base,
                        fields[k].type_idx,
                        below,
                    );
                }
                assert(here->Struct_2 =~= there->Struct_2);
            },
            TypeRow::Function(ret, params) => {
                if let Some(r) = ret {
                    lemma_type_moved(package, tables, functions, map, files, base, r, below);
                }
                assert forall|k: int| 0 <= k < params.len() implies type_at(
                    tables,
                    (base + params[k]) as u32,
                    below,
                ) == type_at(from, #[trigger] params[k], below) by {
                    lemma_type_moved(
                        package,
                        tables,
                        functions,
                        map,
                        files,
                        base,
                        params[k],
                        below,
                    );
                }
                assert(here->Function_1 =~= there->Function_1);
            },
            _ => {},
        }
    }
}

proof fn lemma_function_moved(
    package: PackageModel,
    tables: DebugTablesModel,
    functions: Seq<FunctionInfo>,
    map: TablesModel,
    files: Seq<Option<u32>>,
    base: nat,
    i: u32,
)
    requires
        placed(package, tables, functions, map, files, base),
        i < package.functions.len(),
    ensures
        lookup(map.functions, i) matches Some(j) && same_function_at(
            package.tables,
            package.functions,
            i,
            tables,
            functions,
            j,
        ),
{
    let from = package.tables;
    let f = package.functions[i as int];
    assert(function_placed(f, functions, map.functions[i as int], map, files, base));
    assert(function_ok(f, from));
    lemma_text_moved(package, tables, functions, map, files, base, f.name_idx);
    lemma_uri_moved(package, tables, functions, map, files, base, f.file_idx);
    if let Some(l) = f.linkage_name_idx {
        lemma_text_moved(package, tables, functions, map, files, base, l);
    }
    if let Some(t) = f.type_idx {
        assert forall|depth: nat| #[trigger] type_at(from, t, depth) == type_at(
            tables,
            (base + t) as u32,
            depth,
        ) by {
            lemma_type_moved(package, tables, functions, map, files, base, t, depth);
        }
    }
}

// LINKED ROWS
// ================================================================================================

pub open spec fn metadata_rows(metadata: MetadataModel) -> RowsModel {
    RowsModel {
        asm_ops: metadata.asm_ops,
        debug_vars: metadata.debug_vars,
        inline_calls: metadata.inline_calls,
        call_frames: metadata.call_frames,
    }
}

pub open spec fn occurrence_rows(node: SourceModel) -> RowsModel {
    RowsModel {
        asm_ops: node.asm_ops,
        debug_vars: node.debug_vars,
        inline_calls: node.inline_calls,
        call_frames: node.call_frames,
    }
}

/// The rows of an occurrence name in the tables of a builder what the rows of a package's source
/// node name in the tables of the package.
pub open spec fn rows_name_same(
    package: PackageModel,
    source: u32,
    tables: DebugTablesModel,
    functions: Seq<FunctionInfo>,
    rows: RowsModel,
) -> bool {
    let from = package.tables;
    let node = package.nodes[source as int];
    &&& rows.asm_ops.len() == node.asm_ops.len()
    &&& forall|i: int|
        0 <= i < rows.asm_ops.len() ==> same_asm_op(
            from,
            node.asm_ops[i],
            tables,
            #[trigger] rows.asm_ops[i],
        )
    &&& rows.debug_vars.len() == node.debug_vars.len()
    &&& forall|i: int|
        0 <= i < rows.debug_vars.len() ==> same_var(
            from,
            node.debug_vars[i],
            tables,
            #[trigger] rows.debug_vars[i],
        )
    &&& rows.inline_calls.len() == node.inline_calls.len()
    &&& forall|i: int|
        0 <= i < rows.inline_calls.len() ==> same_inline_call(
            package,
            node.inline_calls[i],
            tables,
            functions,
            #[trigger] rows.inline_calls[i],
        )
    &&& rows.call_frames.len() == node.call_frames.len()
    &&& forall|i: int|
        0 <= i < rows.call_frames.len() ==> same_function_at(
            from,
            package.functions,
            node.call_frames[i].function_idx,
            tables,
            functions,
            (#[trigger] rows.call_frames[i]).function_idx,
        )
}

pub open spec fn same_asm_op(
    from: DebugTablesModel,
    a: DebugSourceAsmOp,
    to: DebugTablesModel,
    b: DebugSourceAsmOp,
) -> bool {
    &&& same_place(from, a.location_idx, to, b.location_idx)
    &&& text_at(from, a.context_name_idx) == text_at(to, b.context_name_idx)
    &&& text_at(from, a.op_name_idx) == text_at(to, b.op_name_idx)
    &&& a.num_cycles == b.num_cycles
}

pub open spec fn same_var(
    from: DebugTablesModel,
    a: DebugSourceVar,
    to: DebugTablesModel,
    b: DebugSourceVar,
) -> bool {
    &&& text_at(from, a.name_idx) == text_at(to, b.name_idx)
    &&& same_type(from, a.type_id, to, b.type_id)
    &&& a.arg_idx == b.arg_idx
    &&& same_place(from, a.location_idx, to, b.location_idx)
    &&& a.value_idx == b.value_idx
}

pub open spec fn same_inline_call(
    package: PackageModel,
    a: DebugSourceInlineCall,
    to: DebugTablesModel,
    functions: Seq<FunctionInfo>,
    b: DebugSourceInlineCall,
) -> bool {
    &&& place_at(package.tables, a.loc_idx) == place_at(to, b.loc_idx)
    &&& same_function_at(
        package.tables,
        package.functions,
        a.callee_idx,
        to,
        functions,
        b.callee_idx,
    )
}

/// Rows that are moved to tables in which the entries of their package are placed name there what
/// they named in the package: the same texts, the same places in files, types that unfold alike to
/// every depth, and functions that are described alike.
pub proof fn law_moved_rows_name_the_same(
    forest: Seq<NodeModel>,
    package: PackageModel,
    source: u32,
    tables: DebugTablesModel,
    functions: Seq<FunctionInfo>,
    map: TablesModel,
    rows: MetadataModel,
)
    requires
        is_placed(package, tables, functions, map),
        source_metadata(forest, package, map, source) == Ok::<MetadataModel, MissingIndex>(rows),
    ensures
        rows_name_same(package, source, tables, functions, metadata_rows(rows)),
{
    reveal(is_placed);
    let (files, base) = choose|files: Seq<Option<u32>>, base: nat| #[trigger]
        placed(package, tables, functions, map, files, base);
    let from = package.tables;
    let node = package.nodes[source as int];
    let kind = forest[node.exec_node as int].kind;
    lemma_collected_items(node.asm_ops, raw_asm_op(kind, map), node.asm_ops.len());
    lemma_collected_items(node.debug_vars, raw_debug_var(kind, map), node.debug_vars.len());
    lemma_collected_items(node.inline_calls, raw_inline_call(kind, map), node.inline_calls.len());
    lemma_collected_items(node.call_frames, raw_call_frame(kind, map), node.call_frames.len());
    assert forall|i: int| 0 <= i < rows.asm_ops.len() implies same_asm_op(
        from,
        node.asm_ops[i],
        tables,
        #[trigger] rows.asm_ops[i],
    ) by {
        let a = node.asm_ops[i];
        assert(raw_asm_op(kind, map)(a) == Ok::<DebugSourceAsmOp, MissingIndex>(rows.asm_ops[i]));
        lemma_text_moved(package, tables, functions, map, files, base, a.context_name_idx);
        lemma_text_moved(package, tables, functions, map, files, base, a.op_name_idx);
        if let Some(l) = a.location_idx {
            lemma_place_moved(package, tables, functions, map, files, base, l);
        }
    }
    assert forall|i: int| 0 <= i < rows.debug_vars.len() implies same_var(
        from,
        node.debug_vars[i],
        tables,
        #[trigger] rows.debug_vars[i],
    ) by {
        let a = node.debug_vars[i];
        assert(raw_debug_var(kind, map)(a) == Ok::<DebugSourceVar, MissingIndex>(
            rows.debug_vars[i],
        ));
        lemma_text_moved(package, tables, functions, map, files, base, a.name_idx);
        if let Some(l) = a.location_idx {
            lemma_place_moved(package, tables, functions, map, files, base, l);
        }
        if let Some(t) = a.type_id {
            assert(lookup(map.types, t) == Some((base + t) as u32));
            assert forall|depth: nat| #[trigger] type_at(from, t, depth) == type_at(
                tables,
                (base + t) as u32,
                depth,
            ) by {
                lemma_type_moved(package, tables, functions, map, files, base, t, depth);
            }
        }
    }
    assert forall|i: int| 0 <= i < rows.inline_calls.len() implies same_inline_call(
        package,
        node.inline_calls[i],
        tables,
        functions,
        #[trigger] rows.inline_calls[i],
    ) by {
        let a = node.inline_calls[i];
        assert(raw_inline_call(kind, map)(a) == Ok::<DebugSourceInlineCall, MissingIndex>(
            rows.inline_calls[i],
        ));
        lemma_place_moved(package, tables, functions, map, files, base, a.loc_idx);
        lemma_function_moved(package, tables, functions, map, files, base, a.callee_idx);
    }
    assert forall|i: int| 0 <= i < rows.call_frames.len() implies same_function_at(
        from,
        package.functions,
        node.call_frames[i].function_idx,
        tables,
        functions,
        (#[trigger] rows.call_frames[i]).function_idx,
    ) by {
        let a = node.call_frames[i];
        assert(raw_call_frame(kind, map)(a) == Ok::<DebugSourceCallFrame, MissingIndex>(
            rows.call_frames[i],
        ));
        lemma_function_moved(package, tables, functions, map, files, base, a.function_idx);
    }
}

// LIBRARIES OF A BUILDER
// ================================================================================================

/// For each library whose slot is filled, its entries are in the builder's tables, where the slot
/// says.
#[verifier::opaque]
pub open spec fn imports_known(b: BuilderModel, libraries: StaticLibraries) -> bool {
    forall|i: int|
        0 <= i < b.imports.len() ==> match #[trigger] b.imports[i] {
            Some(map) => i < libraries.debug_infos@.len() && (libraries.debug_infos@[i] matches Some(
                package,
            ) && is_placed(package@, b.tables, b.graph.functions, map)),
            None => true,
        }
}

/// What was done to a builder keeps the entries of the libraries in its tables.
pub open spec fn keeps_imports(
    libraries: StaticLibraries,
    b: BuilderModel,
    after: BuilderModel,
) -> bool {
    imports_known(b, libraries) ==> imports_known(after, libraries)
}

/// A builder that imported nothing has nothing to know of imports.
pub proof fn law_no_imports_are_known(b: BuilderModel, libraries: StaticLibraries)
    requires
        b.imports.len() == 0,
    ensures
        imports_known(b, libraries),
{
    reveal(imports_known);
}

/// What extends a builder and imports nothing keeps the entries of the libraries in its tables.
pub proof fn law_imports_stay_known(
    b: BuilderModel,
    after: BuilderModel,
    libraries: StaticLibraries,
)
    requires
        extends(b, after),
        after.imports == b.imports,
    ensures
        keeps_imports(libraries, b, after),
{
    reveal(imports_known);
    assert forall|i: int|
        imports_known(b, libraries) && 0 <= i < after.imports.len() implies match #[trigger] after.imports[i] {
        Some(map) => i < libraries.debug_infos@.len() && (libraries.debug_infos@[i] matches Some(
            package,
        ) && is_placed(package@, after.tables, after.graph.functions, map)),
        None => true,
    } by {
        assert(b.imports[i] == after.imports[i]);
        if let Some(map) = b.imports[i] {
            law_placed_entries_stay(libraries.debug_infos@[i]->0@, b, after, map);
        }
    }
}

/// Importing the tables of a library fills its slot truly.
proof fn lemma_import_known(
    b: BuilderModel,
    after: BuilderModel,
    libraries: StaticLibraries,
    library: int,
    map: TablesModel,
)
    requires
        b.wf(),
        imports_known(b, libraries),
        0 <= library < libraries.debug_infos@.len(),
        libraries.debug_infos@[library] is Some,
        with_tables(b, after, library, libraries.debug_infos@[library]->0@, map),
    ensures
        imports_known(after, libraries),
        is_placed(libraries.debug_infos@[library]->0@, after.tables, after.graph.functions, map),
{
    reveal(imports_known);
    let package = libraries.debug_infos@[library]->0@;
    match slot_of(b.imports, library) {
        Some(known) => {
            assert(b.imports[library] == Some(known));
        },
        None => {
            lemma_with_tables_extends(b, after, library, package, map);
            lemma_import_places(b, after, library, package, map);
            assert forall|i: int| 0 <= i < after.imports.len() implies match #[trigger] after.imports[i] {
                Some(map) => i < libraries.debug_infos@.len() && (
                libraries.debug_infos@[i] matches Some(package) && is_placed(
                    package@,
                    after.tables,
                    after.graph.functions,
                    map,
                )),
                None => true,
            } by {
                assert(after.imports[i] == with_slot(b.imports, library, map)[i]);
                if i != library && i < b.imports.len() {
                    assert(after.imports[i] == b.imports[i]);
                    if let Some(m) = b.imports[i] {
                        law_placed_entries_stay(libraries.debug_infos@[i]->0@, b, after, m);
                    }
                }
            }
        },
    }
}

/// What was copied of a package has, for each source node of code that is there, an occurrence
/// whose rows name in the builder's tables what the source node's rows name in the package.
pub open spec fn copies_name_same(
    after: BuilderModel,
    forest: Seq<NodeModel>,
    package: PackageModel,
    uses: Seq<Option<MastNodeUse>>,
    root: u32,
) -> bool {
    forall|x: u32|
        #![trigger reaches(sound_children(package), seq![root], x)]
        reaches(sound_children(package), seq![root], x) && !(
        forest[package.nodes[x as int].exec_node as int].kind is External) ==> {
            &&& uses[x as int] matches Some(u) && after.has_use(u) && rows_name_same(
                package,
                x,
                after.tables,
                after.graph.functions,
                occurrence_rows(after.graph.nodes[u.source_ref.0 as int]),
            )
        }
}

/// Rows that were copied through a map name the same, if the entries of the package are where the
/// map says.
pub proof fn law_copied_rows_name_the_same(
    b: BuilderModel,
    after: BuilderModel,
    forest: Seq<NodeModel>,
    package: PackageModel,
    map: TablesModel,
    uses: Seq<Option<MastNodeUse>>,
    root: u32,
)
    requires
        copied_tree(b, after, forest, package, map, uses, root),
        is_placed(package, after.tables, after.graph.functions, map),
    ensures
        copies_name_same(after, forest, package, uses, root),
{
    assert forall|x: u32|
        #![trigger reaches(sound_children(package), seq![root], x)]
        reaches(sound_children(package), seq![root], x) && !(
        forest[package.nodes[x as int].exec_node as int].kind is External) implies {
        &&& uses[x as int] matches Some(u) && after.has_use(u) && rows_name_same(
            package,
            x,
            after.tables,
            after.graph.functions,
            occurrence_rows(after.graph.nodes[u.source_ref.0 as int]),
        )
    } by {
        assert(copied_as(b, after, forest, package, map, uses, x));
        reveal(copied_as);
        let node = package.nodes[x as int];
        let metadata = source_metadata(forest, package, map, x)->Ok_0;
        let u = uses[x as int]->0;
        let draft = static_draft(
            forest[node.exec_node as int],
            children_uses(node, uses),
            metadata,
        );
        let sources = use_sources(children_uses(node, uses));
        let (at, next) = choose|at: BuilderModel, next: BuilderModel| #[trigger]
            copied_between(at, next, draft, sources, metadata, u) && extends(b, at) && extends(
                next,
                after,
            );
        lemma_recorded_occurrence(
            at,
            next,
            draft,
            sources,
            metadata.op_start,
            metadata.op_end,
            u,
        );
        let s = u.source_ref.0 as int;
        assert(after.graph.nodes[s] == next.graph.nodes[s]);
        law_moved_rows_name_the_same(
            forest,
            package,
            x,
            after.tables,
            after.graph.functions,
            map,
            metadata,
        );
        assert(occurrence_rows(after.graph.nodes[s]) == metadata_rows(metadata));
    }
}

/// Linking keeps what is known of imports, and what it copies of a package names in the builder's
/// tables what it named in the package.
pub proof fn law_linked_rows_name_the_same(
    b: BuilderModel,
    after: BuilderModel,
    libraries: StaticLibraries,
    plan: LinkPlan,
    mast_root: Word,
    r: MastNodeRef,
)
    requires
        b.wf(),
        extends(b, after),
        imports_known(b, libraries),
        linked_as(b, after, libraries, plan, mast_root, r),
        plan matches LinkPlan::Package { library, source: _ } ==> library
            < libraries.debug_infos@.len() && libraries.debug_infos@[library as int] is Some,
    ensures
        imports_known(after, libraries),
        plan matches LinkPlan::Package { library, source } ==> {
            let package = libraries.debug_infos@[library as int]->0@;
            let forest = libraries.forests@[library as int]@.nodes;
            exists|uses: Seq<Option<MastNodeUse>>| #[trigger]
                copies_name_same(after, forest, package, uses, source) && (
                uses[source as int] matches Some(u) && u.node_ref == r)
        },
{
    match plan {
        LinkPlan::Package { library, source } => {
            let i = library as int;
            let package = libraries.debug_infos@[i]->0@;
            let forest = libraries.forests@[i]@.nodes;
            let (mid, map) = choose|mid: BuilderModel, map: TablesModel|
                #[trigger] with_tables(b, mid, i, package, map) && package_linked(
                    mid,
                    after,
                    libraries,
                    i,
                    source,
                    map,
                    r,
                );
            lemma_import_known(b, mid, libraries, i, map);
            let uses = choose|uses: Seq<Option<MastNodeUse>>| #[trigger]
                copied_tree(mid, after, forest, package, map, uses, source) && (
                uses[source as int] matches Some(u) && u.node_ref == r);
            law_imports_stay_known(mid, after, libraries);
            law_placed_entries_stay(package, mid, after, map);
            law_copied_rows_name_the_same(mid, after, forest, package, map, uses, source);
        },
        LinkPlan::Forest { root_id: _ } => {
            law_imports_stay_known(b, after, libraries);
        },
        LinkPlan::Elsewhere => {
            law_imports_stay_known(b, after, libraries);
        },
    }
}

/// Once something of a library was linked, linking more of it imports nothing: its slot is filled,
/// and stays.
pub proof fn law_tables_are_imported_once(
    b: BuilderModel,
    after: BuilderModel,
    last: BuilderModel,
    libraries: StaticLibraries,
    library: usize,
    source: u32,
    next_source: u32,
    mast_root: Word,
    next_root: Word,
    r: MastNodeRef,
    next_r: MastNodeRef,
)
    requires
        b.wf(),
        linked_as(b, after, libraries, LinkPlan::Package { library, source }, mast_root, r),
        linked_as(
            after,
            last,
            libraries,
            LinkPlan::Package { library, source: next_source },
            next_root,
            next_r,
        ),
    ensures
        slot_of(after.imports, library as int) is Some,
        last.tables == after.tables,
        last.imports == after.imports,
        package_linked(
            after,
            last,
            libraries,
            library as int,
            next_source,
            slot_of(after.imports, library as int)->0,
            next_r,
        ),
{
    let i = library as int;
    let package = libraries.debug_infos@[i]->0@;
    let (mid, map) = choose|mid: BuilderModel, map: TablesModel|
        #[trigger] with_tables(b, mid, i, package, map) && package_linked(
            mid,
            after,
            libraries,
            i,
            source,
            map,
            r,
        );
    assert(slot_of(mid.imports, i) == Some(map));
}

} // verus!
