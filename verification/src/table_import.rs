//! Importing the tables of debug information of a package: its entries are added to other tables,
//! and what refers to them is told where they went.

use vstd::prelude::*;
use vstd::string::*;

use crate::builder::{
    entries_kept, extends, is_prefix, lemma_extends_refl, BuilderModel, MastForestBuilder,
};
use crate::debug_info::{lookup, DebugInfoTableRemapping, TablesModel};
use crate::debug_types::{
    is_name, with_name, DebugFieldInfo, DebugTypeError, DebugTypeInfo, SectionModel, TypeRow,
};
use crate::procedures::{
    first_message, lemma_message_added, lemma_message_text_stays, lemma_messages_ok, message_text,
    messages_ok, package_messages,
};
use crate::registry::{
    file_index, import_models, is_file, same_procedures, tables_grown, with_message, DebugLocation, DebugTables,
    DebugTablesModel, Registry,
};
use crate::source_graph::{FunctionInfo, GraphModel};
use crate::static_metadata::{PackageDebugInfo, PackageModel};

verus! {

/// A row refers to names and types that are there.
pub open spec fn row_ok(row: TypeRow, strings: nat, types: nat) -> bool {
    match row {
        TypeRow::Pointer(p) => p < types,
        TypeRow::Array(e, _) => e < types,
        TypeRow::Struct(name, _, fields) => name < strings && forall|i: int|
            0 <= i < fields.len() ==> (#[trigger] fields[i]).name_idx < strings
                && fields[i].type_idx < types,
        TypeRow::Function(ret, params) => (ret matches Some(r) ==> r < types) && forall|i: int|
            0 <= i < params.len() ==> (#[trigger] params[i]) < types,
        _ => true,
    }
}

/// A function refers to entries that are there.
pub open spec fn function_ok(function: FunctionInfo, tables: DebugTablesModel) -> bool {
    &&& function.name_idx < tables.section.strings.len()
    &&& function.linkage_name_idx matches Some(i) ==> i < tables.section.strings.len()
    &&& function.file_idx < tables.files.len()
    &&& function.type_idx matches Some(i) ==> i < tables.section.types.len()
}

/// Entries refer to entries that are there.
pub open spec fn tables_closed(tables: DebugTablesModel) -> bool {
    let strings = tables.section.strings.len();
    let types = tables.section.types.len();
    &&& forall|i: int| 0 <= i < types ==> row_ok(#[trigger] tables.section.types[i], strings, types)
    &&& forall|i: int| 0 <= i < tables.files.len() ==> (#[trigger] tables.files[i]) < strings
    &&& forall|i: int|
        0 <= i < tables.locations.len() ==> (#[trigger] tables.locations[i]).file_idx
            < tables.files.len()
    &&& forall|i: int|
        0 <= i < tables.errors.len() ==> (#[trigger] tables.errors[i]).1 < strings
}

pub open spec fn functions_closed(functions: Seq<FunctionInfo>, tables: DebugTablesModel) -> bool {
    forall|i: int| 0 <= i < functions.len() ==> function_ok(#[trigger] functions[i], tables)
}

fn row_is_ok(row: &DebugTypeInfo, strings: usize, types: usize) -> (res: bool)
    ensures
        res == row_ok(row@, strings as nat, types as nat),
{
    match row {
        DebugTypeInfo::Primitive(_) => true,
        DebugTypeInfo::Unknown => true,
        DebugTypeInfo::Pointer { pointee_type_idx } => (*pointee_type_idx as usize) < types,
        DebugTypeInfo::Array { element_type_idx, count: _ } => (*element_type_idx as usize) < types,
        DebugTypeInfo::Struct { name_idx, size: _, fields } => {
            let mut i: usize = 0;
            while i < fields.len()
                invariant
                    i <= fields@.len(),
                    row@ matches TypeRow::Struct(_, _, f) && f == fields@,
                    forall|k: int|
                        0 <= k < i ==> (#[trigger] fields@[k]).name_idx < strings
                            && fields@[k].type_idx < types,
                decreases fields@.len() - i,
            {
                if fields[i].name_idx as usize >= strings || fields[i].type_idx as usize >= types {
                    assert(!(fields@[i as int].name_idx < strings && fields@[i as int].type_idx
                        < types));
                    return false;
                }
                i += 1;
            }
            (*name_idx as usize) < strings
        },
        DebugTypeInfo::Function { return_type_idx, param_type_indices } => {
            let mut i: usize = 0;
            while i < param_type_indices.len()
                invariant
                    i <= param_type_indices@.len(),
                    row@ matches TypeRow::Function(_, p) && p == param_type_indices@,
                    forall|k: int| 0 <= k < i ==> (#[trigger] param_type_indices@[k]) < types,
                decreases param_type_indices@.len() - i,
            {
                if param_type_indices[i] as usize >= types {
                    assert(!(param_type_indices@[i as int] < types));
                    return false;
                }
                i += 1;
            }
            match return_type_idx {
                Some(r) => (*r as usize) < types,
                None => true,
            }
        },
    }
}

/// Tells whether entries refer to entries that are there.
fn tables_are_closed(tables: &DebugTables) -> (res: bool)
    ensures
        res == tables_closed(tables@),
{
    let strings: usize = tables.section.strings.len();
    let types: usize = tables.section.types.len();
    let mut i: usize = 0;
    while i < types
        invariant
            i <= types == tables@.section.types.len() == tables.section.types@.len(),
            strings == tables@.section.strings.len(),
            forall|k: int|
                0 <= k < i ==> row_ok(
                    #[trigger] tables@.section.types[k],
                    strings as nat,
                    types as nat,
                ),
        decreases types - i,
    {
        assert(tables@.section.types[i as int] == tables.section.types@[i as int]@);
        if !row_is_ok(&tables.section.types[i], strings, types) {
            return false;
        }
        i += 1;
    }
    let mut i: usize = 0;
    while i < tables.files.len()
        invariant
            i <= tables.files@.len(),
            strings == tables@.section.strings.len(),
            forall|k: int| 0 <= k < i ==> (#[trigger] tables@.files[k]) < strings,
        decreases tables.files@.len() - i,
    {
        if tables.files[i] as usize >= strings {
            assert(!(tables@.files[i as int] < strings));
            return false;
        }
        i += 1;
    }
    let mut i: usize = 0;
    while i < tables.locations.len()
        invariant
            i <= tables.locations@.len(),
            forall|k: int|
                0 <= k < i ==> (#[trigger] tables@.locations[k]).file_idx < tables@.files.len(),
        decreases tables.locations@.len() - i,
    {
        if tables.locations[i].file_idx as usize >= tables.files.len() {
            assert(!(tables@.locations[i as int].file_idx < tables@.files.len()));
            return false;
        }
        i += 1;
    }
    let mut i: usize = 0;
    while i < tables.errors.len()
        invariant
            i <= tables.errors@.len(),
            strings == tables@.section.strings.len(),
            forall|k: int| 0 <= k < i ==> (#[trigger] tables@.errors[k]).1 < strings,
        decreases tables.errors@.len() - i,
    {
        if tables.errors[i].1 as usize >= strings {
            assert(!(tables@.errors[i as int].1 < strings));
            return false;
        }
        i += 1;
    }
    true
}

fn is_below(idx: Option<u32>, n: usize) -> (res: bool)
    ensures
        res == (idx matches Some(i) ==> i < n),
{
    match idx {
        Some(i) => (i as usize) < n,
        None => true,
    }
}

/// Tells whether functions refer to entries that are there.
fn functions_are_closed(functions: &Vec<FunctionInfo>, tables: &DebugTables) -> (res: bool)
    ensures
        res == functions_closed(functions@, tables@),
{
    let strings: usize = tables.section.strings.len();
    let types: usize = tables.section.types.len();
    let mut i: usize = 0;
    while i < functions.len()
        invariant
            i <= functions@.len(),
            strings == tables@.section.strings.len(),
            types == tables@.section.types.len(),
            forall|k: int| 0 <= k < i ==> function_ok(#[trigger] functions@[k], tables@),
        decreases functions@.len() - i,
    {
        let function = functions[i];
        if function.name_idx as usize >= strings || !is_below(function.linkage_name_idx, strings)
            || function.file_idx as usize >= tables.files.len() || !is_below(
            function.type_idx,
            types,
        ) {
            assert(!function_ok(functions@[i as int], tables@));
            return false;
        }
        i += 1;
    }
    true
}

// WHERE ENTRIES GO
// ================================================================================================

/// Names went where `map` says.
pub open spec fn strings_mapped(
    from: Seq<Seq<char>>,
    section: SectionModel,
    map: Seq<Option<u32>>,
    k: int,
) -> bool {
    &&& map.len() == k
    &&& forall|i: int|
        0 <= i < k ==> ((#[trigger] map[i]) matches Some(idx) && is_name(section, idx, from[i]))
}

/// Files went where `map` says.
pub open spec fn files_mapped(
    from: DebugTablesModel,
    after: DebugTablesModel,
    map: Seq<Option<u32>>,
    k: int,
) -> bool {
    &&& map.len() == k
    &&& forall|i: int|
        0 <= i < k ==> ((#[trigger] map[i]) matches Some(idx) && is_file(
            after,
            idx,
            from.section.strings[from.files[i] as int],
        ))
}

/// A location after its file went where `files` says.
pub open spec fn moved_location(location: DebugLocation, files: Seq<Option<u32>>) -> DebugLocation {
    DebugLocation { file_idx: lookup(files, location.file_idx)->0, ..location }
}

/// Locations went where `map` says.
pub open spec fn locations_mapped(
    from: Seq<DebugLocation>,
    after: Seq<DebugLocation>,
    files: Seq<Option<u32>>,
    map: Seq<Option<u32>>,
    k: int,
) -> bool {
    &&& map.len() == k
    &&& forall|i: int|
        0 <= i < k ==> ((#[trigger] map[i]) matches Some(idx) && idx < after.len()
            && after[idx as int] == moved_location(from[i], files))
}

pub open spec fn moved_field(
    field: DebugFieldInfo,
    strings: Seq<Option<u32>>,
    base: nat,
) -> DebugFieldInfo {
    DebugFieldInfo {
        name_idx: lookup(strings, field.name_idx)->0,
        type_idx: (base + field.type_idx) as u32,
        offset: field.offset,
    }
}

/// A row after names went where `strings` says, and types behind `base` others.
pub open spec fn moved_row(row: TypeRow, strings: Seq<Option<u32>>, base: nat) -> TypeRow {
    match row {
        TypeRow::Pointer(p) => TypeRow::Pointer((base + p) as u32),
        TypeRow::Array(e, count) => TypeRow::Array((base + e) as u32, count),
        TypeRow::Struct(name, size, fields) => TypeRow::Struct(
            lookup(strings, name)->0,
            size,
            Seq::new(fields.len(), |i: int| moved_field(fields[i], strings, base)),
        ),
        TypeRow::Function(ret, params) => TypeRow::Function(
            match ret {
                Some(r) => Some((base + r) as u32),
                None => None,
            },
            Seq::new(params.len(), |i: int| (base + params[i]) as u32),
        ),
        other => other,
    }
}

/// A function after its names, its file and its type went where the maps say. It has no occurrence
/// yet.
pub open spec fn moved_function(
    function: FunctionInfo,
    strings: Seq<Option<u32>>,
    files: Seq<Option<u32>>,
    base: nat,
) -> FunctionInfo {
    FunctionInfo {
        source_node: None,
        name_idx: lookup(strings, function.name_idx)->0,
        linkage_name_idx: match function.linkage_name_idx {
            Some(i) => lookup(strings, i),
            None => None,
        },
        file_idx: lookup(files, function.file_idx)->0,
        type_idx: match function.type_idx {
            Some(i) => Some((base + i) as u32),
            None => None,
        },
        ..function
    }
}

/// Indices that follow `base`.
pub open spec fn behind(base: nat, n: nat) -> Seq<Option<u32>> {
    Seq::new(n, |i: int| Some((base + i) as u32))
}

/// The message of a code after the first `k` messages of a package were added: the first one stays.
pub open spec fn with_messages(
    before: DebugTablesModel,
    rows: Seq<(u64, Seq<char>)>,
    code: u64,
    k: nat,
) -> Option<Seq<char>> {
    match message_text(before, code) {
        Some(text) => Some(text),
        None => first_message(rows, code, k),
    }
}

/// The messages of a package were added.
pub open spec fn messages_added(
    from: DebugTablesModel,
    before: DebugTablesModel,
    after: DebugTablesModel,
    k: nat,
) -> bool {
    messages_ok(before) ==> messages_ok(after) && forall|code: u64| #[trigger]
        message_text(after, code) == with_messages(before, package_messages(from), code, k)
}

/// Names with the first `k` of others, each of which is added unless it is there.
pub open spec fn names_with(strings: Seq<Seq<char>>, more: Seq<Seq<char>>, k: nat) -> Seq<Seq<char>>
    decreases k,
{
    if k == 0 {
        strings
    } else {
        with_name(names_with(strings, more, (k - 1) as nat), more[k - 1]).0
    }
}

/// Files with the first `k` of a package, each of which is added unless it is there. All names are
/// there.
pub open spec fn files_with(
    files: Seq<u32>,
    strings: Seq<Seq<char>>,
    from: DebugTablesModel,
    k: nat,
) -> Seq<u32>
    decreases k,
{
    if k == 0 {
        files
    } else {
        let before = files_with(files, strings, from, (k - 1) as nat);
        let name = with_name(strings, from.section.strings[from.files[k - 1] as int]).1 as u32;
        match file_index(before, name, before.len()) {
            Some(_) => before,
            None => before.push(name),
        }
    }
}

/// Locations with the first `k` of others, each of which is added unless it is there, with its file
/// where `map` says.
pub open spec fn locations_with(
    locations: Seq<DebugLocation>,
    more: Seq<DebugLocation>,
    map: Seq<Option<u32>>,
    k: nat,
) -> Seq<DebugLocation>
    decreases k,
{
    if k == 0 {
        locations
    } else {
        let before = locations_with(locations, more, map, (k - 1) as nat);
        let location = moved_location(more[k - 1], map);
        if before.contains(location) {
            before
        } else {
            before.push(location)
        }
    }
}

/// Tables with the first `k` of some messages, of which the first for each code stays.
pub open spec fn tables_with(
    tables: DebugTablesModel,
    rows: Seq<(u64, Seq<char>)>,
    k: nat,
) -> DebugTablesModel
    decreases k,
{
    if k == 0 {
        tables
    } else {
        with_message(tables_with(tables, rows, (k - 1) as nat), rows[k - 1].0, rows[k - 1].1)
    }
}

/// Tables after those of a package were imported: its names, files, locations and messages were
/// added unless they were there, and its types behind those that were there.
pub open spec fn tables_after(
    from: DebugTablesModel,
    before: DebugTablesModel,
    strings: Seq<Option<u32>>,
    files: Seq<Option<u32>>,
) -> DebugTablesModel {
    let names = names_with(
        before.section.strings,
        from.section.strings,
        from.section.strings.len(),
    );
    let base = before.section.types.len();
    tables_with(
        DebugTablesModel {
            section: SectionModel {
                strings: names,
                types: before.section.types + Seq::new(
                    from.section.types.len(),
                    |i: int| moved_row(from.section.types[i], strings, base),
                ),
            },
            files: files_with(before.files, names, from, from.files.len()),
            locations: locations_with(
                before.locations,
                from.locations,
                files,
                from.locations.len(),
            ),
            errors: before.errors,
        },
        package_messages(from),
        from.errors.len(),
    )
}

/// The tables of a package were imported, and nothing else was added: names, files and locations are
/// found where the maps say, types and functions stand behind those that were there.
pub open spec fn imported(
    from: DebugTablesModel,
    functions: Seq<FunctionInfo>,
    before: DebugTablesModel,
    after: DebugTablesModel,
    known: Seq<FunctionInfo>,
    all: Seq<FunctionInfo>,
    map: TablesModel,
    files: Seq<Option<u32>>,
) -> bool {
    let types = before.section.types.len();
    &&& tables_grown(before, after)
    &&& after == tables_after(from, before, map.strings, files)
    &&& strings_mapped(
        from.section.strings,
        after.section,
        map.strings,
        from.section.strings.len() as int,
    )
    &&& files_mapped(from, after, files, from.files.len() as int)
    &&& locations_mapped(
        from.locations,
        after.locations,
        files,
        map.locations,
        from.locations.len() as int,
    )
    &&& messages_added(from, before, after, from.errors.len())
    &&& map.types == behind(types, from.section.types.len())
    &&& after.section.types.len() == types + from.section.types.len()
    &&& forall|i: int|
        0 <= i < from.section.types.len() ==> #[trigger] after.section.types[types + i]
            == moved_row(from.section.types[i], map.strings, types)
    &&& map.functions == behind(known.len(), functions.len())
    &&& all.len() == known.len() + functions.len()
    &&& is_prefix(known, all)
    &&& forall|i: int|
        0 <= i < functions.len() ==> #[trigger] all[known.len() + i] == moved_function(
            functions[i],
            map.strings,
            files,
            types,
        )
}

/// The tables of a package were imported, with files that went somewhere.
#[verifier::opaque]
pub open spec fn is_import(
    from: DebugTablesModel,
    functions: Seq<FunctionInfo>,
    before: DebugTablesModel,
    after: DebugTablesModel,
    known: Seq<FunctionInfo>,
    all: Seq<FunctionInfo>,
    map: TablesModel,
) -> bool {
    exists|files: Seq<Option<u32>>| #[trigger]
        imported(from, functions, before, after, known, all, map, files)
}

proof fn lemma_is_import(
    from: DebugTablesModel,
    functions: Seq<FunctionInfo>,
    before: DebugTablesModel,
    after: DebugTablesModel,
    known: Seq<FunctionInfo>,
    all: Seq<FunctionInfo>,
    map: TablesModel,
    files: Seq<Option<u32>>,
)
    requires
        imported(from, functions, before, after, known, all, map, files),
    ensures
        is_import(from, functions, before, after, known, all, map),
{
    reveal(is_import);
}

/// The functions of a package have no occurrence yet.
pub proof fn lemma_imported_functions(
    from: DebugTablesModel,
    functions: Seq<FunctionInfo>,
    before: DebugTablesModel,
    after: DebugTablesModel,
    known: Seq<FunctionInfo>,
    all: Seq<FunctionInfo>,
    map: TablesModel,
)
    requires
        is_import(from, functions, before, after, known, all, map),
    ensures
        all.len() == known.len() + functions.len(),
        forall|i: int| 0 <= i < known.len() ==> #[trigger] all[i] == known[i],
        forall|i: int|
            known.len() <= i < all.len() ==> (#[trigger] all[i]).source_node is None && all[i].mast_root
                == functions[i - known.len()].mast_root,
        map.functions == behind(known.len(), functions.len()),
        after.section.types.len() == before.section.types.len() + from.section.types.len(),
{
    reveal(is_import);
    let files = choose|files: Seq<Option<u32>>| #[trigger]
        imported(from, functions, before, after, known, all, map, files);
    assert forall|i: int| known.len() <= i < all.len() implies (#[trigger] all[i]).source_node is None
        && all[i].mast_root == functions[i - known.len()].mast_root by {
        let k = i - known.len();
        assert(all[known.len() + k].source_node is None);
    }
    assert forall|i: int| 0 <= i < known.len() implies #[trigger] all[i] == known[i] by {
        assert(known[i] == all[i]);
    }
}

/// There may be no room for the entries of a package.
pub open spec fn import_crowded(
    from: DebugTablesModel,
    functions: Seq<FunctionInfo>,
    before: DebugTablesModel,
    known: Seq<FunctionInfo>,
) -> bool {
    ||| before.section.strings.len() + from.section.strings.len() > u32::MAX
    ||| before.section.types.len() + from.section.types.len() > u32::MAX
    ||| before.files.len() + from.files.len() > u32::MAX
    ||| before.locations.len() + from.locations.len() > u32::MAX
    ||| known.len() + functions.len() > u32::MAX
}

// IMPORTING
// ================================================================================================

/// Adds names.
fn import_strings(tables: &mut DebugTables, strings: &Vec<String>, Ghost(from): Ghost<Seq<Seq<char>>>) -> (
res: Vec<Option<u32>>)
    requires
        from == Seq::new(strings@.len(), |i: int| strings@[i]@),
        old(tables)@.section.strings.len() + strings@.len() <= u32::MAX,
    ensures
        tables_grown(old(tables)@, final(tables)@),
        final(tables)@.section.types == old(tables)@.section.types,
        final(tables)@.files == old(tables)@.files,
        final(tables)@.locations == old(tables)@.locations,
        final(tables)@.errors == old(tables)@.errors,
        final(tables)@.section.strings.len() <= old(tables)@.section.strings.len() + strings@.len(),
        final(tables)@.section.strings == names_with(
            old(tables)@.section.strings,
            from,
            from.len(),
        ),
        strings_mapped(from, final(tables)@.section, res@, strings@.len() as int),
{
    let ghost before = tables@;
    let mut map: Vec<Option<u32>> = Vec::new();
    let mut i: usize = 0;
    while i < strings.len()
        invariant
            i <= strings@.len(),
            from == Seq::new(strings@.len(), |i: int| strings@[i]@),
            before == old(tables)@,
            before.section.strings.len() + strings@.len() <= u32::MAX,
            tables_grown(before, tables@),
            tables@.section.types == before.section.types,
            tables@.files == before.files,
            tables@.locations == before.locations,
            tables@.errors == before.errors,
            tables@.section.strings.len() <= before.section.strings.len() + i,
            tables@.section.strings == names_with(before.section.strings, from, i as nat),
            strings_mapped(from, tables@.section, map@, i as int),
        decreases strings@.len() - i,
    {
        let ghost now = tables@.section;
        let ghost earlier = map@;
        match tables.add_string(strings[i].clone()) {
            Ok(idx) => {
                map.push(Some(idx));
            },
            Err(_) => {
                assert(false);
            },
        }
        proof {
            assert forall|k: int| 0 <= k < i + 1 implies ((#[trigger] map@[k]) matches Some(idx)
                && is_name(tables@.section, idx, from[k])) by {
                if k < i {
                    assert(map@[k] == earlier[k]);
                }
            }
        }
        i += 1;
    }
    map
}

/// Adds files.
fn import_files(tables: &mut DebugTables, package: &DebugTables) -> (map: Vec<Option<u32>>)
    requires
        tables_closed(package@),
        old(tables)@.files.len() + package@.files.len() <= u32::MAX,
        strings_known(package@, old(tables)@),
        old(tables)@.section.strings.len() <= u32::MAX,
    ensures
        tables_grown(old(tables)@, final(tables)@),
        final(tables)@.section == old(tables)@.section,
        final(tables)@.locations == old(tables)@.locations,
        final(tables)@.errors == old(tables)@.errors,
        final(tables)@.files.len() <= old(tables)@.files.len() + package@.files.len(),
        final(tables)@.files == files_with(
            old(tables)@.files,
            old(tables)@.section.strings,
            package@,
            package@.files.len(),
        ),
        files_mapped(package@, final(tables)@, map@, package@.files.len() as int),
{
    let ghost before = tables@;
    let mut map: Vec<Option<u32>> = Vec::new();
    let mut i: usize = 0;
    while i < package.files.len()
        invariant
            i <= package.files@.len(),
            before == old(tables)@,
            tables_closed(package@),
            strings_known(package@, before),
            before.section.strings.len() <= u32::MAX,
            before.files.len() + package@.files.len() <= u32::MAX,
            tables_grown(before, tables@),
            tables@.section == before.section,
            tables@.locations == before.locations,
            tables@.errors == before.errors,
            tables@.files.len() <= before.files.len() + i,
            tables@.files == files_with(
                before.files,
                before.section.strings,
                package@,
                i as nat,
            ),
            files_mapped(package@, tables@, map@, i as int),
        decreases package.files@.len() - i,
    {
        let ghost now = tables@;
        let ghost earlier = map@;
        assert(package@.files[i as int] < package@.section.strings.len());
        let name: usize = package.files[i] as usize;
        let uri = package.section.strings[name].clone();
        proof {
            assert(uri@ == package@.section.strings[name as int]);
            crate::debug_types::lemma_known_name(tables@.section.strings, uri@);
        }
        match tables.add_file(uri) {
            Ok(idx) => {
                map.push(Some(idx));
            },
            Err(_) => {
                assert(false);
            },
        }
        proof {
            assert(tables@.section.strings =~= now.section.strings);
            assert(tables@.section == now.section);
            assert forall|k: int| 0 <= k < i + 1 implies ((#[trigger] map@[k]) matches Some(idx)
                && is_file(
                tables@,
                idx,
                package@.section.strings[package@.files[k] as int],
            )) by {
                if k < i {
                    assert(map@[k] == earlier[k]);
                }
            }
        }
        i += 1;
    }
    map
}

/// The names of a package are in the tables.
pub open spec fn strings_known(from: DebugTablesModel, tables: DebugTablesModel) -> bool {
    forall|i: int|
        0 <= i < from.section.strings.len() ==> tables.section.strings.contains(
            #[trigger] from.section.strings[i],
        )
}

/// Adds locations.
fn import_locations(
    tables: &mut DebugTables,
    package: &DebugTables,
    files: &Vec<Option<u32>>,
) -> (map: Vec<Option<u32>>)
    requires
        tables_closed(package@),
        files_mapped(package@, old(tables)@, files@, package@.files.len() as int),
        old(tables)@.locations.len() + package@.locations.len() <= u32::MAX,
    ensures
        tables_grown(old(tables)@, final(tables)@),
        final(tables)@.section == old(tables)@.section,
        final(tables)@.files == old(tables)@.files,
        final(tables)@.errors == old(tables)@.errors,
        final(tables)@.locations == locations_with(
            old(tables)@.locations,
            package@.locations,
            files@,
            package@.locations.len(),
        ),
        locations_mapped(
            package@.locations,
            final(tables)@.locations,
            files@,
            map@,
            package@.locations.len() as int,
        ),
{
    let ghost before = tables@;
    let mut map: Vec<Option<u32>> = Vec::new();
    let mut i: usize = 0;
    while i < package.locations.len()
        invariant
            i <= package.locations@.len(),
            before == old(tables)@,
            tables_closed(package@),
            files_mapped(package@, before, files@, package@.files.len() as int),
            before.locations.len() + package@.locations.len() <= u32::MAX,
            tables_grown(before, tables@),
            tables@.section == before.section,
            tables@.files == before.files,
            tables@.errors == before.errors,
            tables@.locations.len() <= before.locations.len() + i,
            tables@.locations == locations_with(
                before.locations,
                package@.locations,
                files@,
                i as nat,
            ),
            locations_mapped(package@.locations, tables@.locations, files@, map@, i as int),
        decreases package.locations@.len() - i,
    {
        let ghost now = tables@;
        let ghost earlier = map@;
        let location = package.locations[i];
        assert(package@.locations[i as int].file_idx < package@.files.len());
        assert(files@[location.file_idx as int] is Some);
        let moved = match files[location.file_idx as usize] {
            Some(file_idx) => DebugLocation {
                file_idx,
                start: location.start,
                end: location.end,
            },
            None => location,
        };
        assert(moved == moved_location(package@.locations[i as int], files@));
        match tables.add_location(moved) {
            Ok(idx) => {
                map.push(Some(idx));
            },
            Err(_) => {
                assert(false);
            },
        }
        proof {
            assert forall|k: int| 0 <= k < i + 1 implies ((#[trigger] map@[k]) matches Some(idx)
                && idx < tables@.locations.len() && tables@.locations[idx as int]
                == moved_location(package@.locations[k], files@)) by {
                if k < i {
                    assert(map@[k] == earlier[k]);
                }
            }
        }
        i += 1;
    }
    map
}

fn mapped(map: &Vec<Option<u32>>, idx: u32) -> (res: u32)
    requires
        idx < map@.len(),
        map@[idx as int] is Some,
    ensures
        res == lookup(map@, idx)->0,
{
    match map[idx as usize] {
        Some(res) => res,
        None => 0,
    }
}

/// A row with its references moved.
fn move_row(row: &DebugTypeInfo, strings: &Vec<Option<u32>>, base: u32, Ghost(types): Ghost<nat>) -> (
moved: DebugTypeInfo)
    requires
        row_ok(row@, strings@.len(), types),
        base + types <= u32::MAX,
        forall|i: int| 0 <= i < strings@.len() ==> (#[trigger] strings@[i]) is Some,
    ensures
        moved@ == moved_row(row@, strings@, base as nat),
{
    match row {
        DebugTypeInfo::Primitive(ty) => DebugTypeInfo::Primitive(*ty),
        DebugTypeInfo::Unknown => DebugTypeInfo::Unknown,
        DebugTypeInfo::Pointer { pointee_type_idx } => DebugTypeInfo::Pointer {
            pointee_type_idx: base + *pointee_type_idx,
        },
        DebugTypeInfo::Array { element_type_idx, count } => DebugTypeInfo::Array {
            element_type_idx: base + *element_type_idx,
            count: *count,
        },
        DebugTypeInfo::Struct { name_idx, size, fields } => {
            let mut list: Vec<DebugFieldInfo> = Vec::new();
            let mut i: usize = 0;
            while i < fields.len()
                invariant
                    i <= fields@.len() == list@.len() + (fields@.len() - i),
                    base + types <= u32::MAX,
                    forall|i: int| 0 <= i < strings@.len() ==> (#[trigger] strings@[i]) is Some,
                    forall|i: int|
                        0 <= i < fields@.len() ==> (#[trigger] fields@[i]).name_idx < strings@.len()
                            && fields@[i].type_idx < types,
                    forall|k: int|
                        0 <= k < i ==> #[trigger] list@[k] == moved_field(
                            fields@[k],
                            strings@,
                            base as nat,
                        ),
                decreases fields@.len() - i,
            {
                let field = fields[i];
                assert(fields@[i as int].type_idx < types);
                list.push(
                    DebugFieldInfo {
                        name_idx: mapped(strings, field.name_idx),
                        type_idx: base + field.type_idx,
                        offset: field.offset,
                    },
                );
                i += 1;
            }
            let moved = DebugTypeInfo::Struct {
                name_idx: mapped(strings, *name_idx),
                size: *size,
                fields: list,
            };
            assert(moved@->Struct_2 =~= moved_row(row@, strings@, base as nat)->Struct_2);
            moved
        },
        DebugTypeInfo::Function { return_type_idx, param_type_indices } => {
            let mut list: Vec<u32> = Vec::new();
            let mut i: usize = 0;
            while i < param_type_indices.len()
                invariant
                    i <= param_type_indices@.len(),
                    list@.len() == i,
                    base + types <= u32::MAX,
                    forall|i: int|
                        0 <= i < param_type_indices@.len() ==> (#[trigger] param_type_indices@[i])
                            < types,
                    forall|k: int|
                        0 <= k < i ==> #[trigger] list@[k] == (base + param_type_indices@[k]) as u32,
                decreases param_type_indices@.len() - i,
            {
                assert(param_type_indices@[i as int] < types);
                list.push(base + param_type_indices[i]);
                i += 1;
            }
            let moved = DebugTypeInfo::Function {
                return_type_idx: match return_type_idx {
                    Some(r) => Some(base + *r),
                    None => None,
                },
                param_type_indices: list,
            };
            assert(moved@->Function_1 =~= moved_row(row@, strings@, base as nat)->Function_1);
            moved
        },
    }
}

/// Adds rows for types, behind those that are there.
fn import_types(
    tables: &mut DebugTables,
    package: &DebugTables,
    strings: &Vec<Option<u32>>,
) -> (map: Vec<Option<u32>>)
    requires
        tables_closed(package@),
        strings@.len() == package@.section.strings.len(),
        forall|i: int| 0 <= i < strings@.len() ==> (#[trigger] strings@[i]) is Some,
        old(tables)@.section.types.len() + package@.section.types.len() <= u32::MAX,
    ensures
        tables_grown(old(tables)@, final(tables)@),
        final(tables)@.section.strings == old(tables)@.section.strings,
        final(tables)@.files == old(tables)@.files,
        final(tables)@.locations == old(tables)@.locations,
        final(tables)@.errors == old(tables)@.errors,
        ({
            let base = old(tables)@.section.types.len();
            let n = package@.section.types.len();
            &&& map@ == behind(base, n)
            &&& final(tables)@.section.types.len() == base + n
            &&& forall|i: int|
                0 <= i < n ==> #[trigger] final(tables)@.section.types[base + i] == moved_row(
                    package@.section.types[i],
                    strings@,
                    base,
                )
        }),
{
    let ghost before = tables@;
    let base: u32 = tables.section.types.len() as u32;
    let mut map: Vec<Option<u32>> = Vec::new();
    let mut i: usize = 0;
    while i < package.section.types.len()
        invariant
            i <= package.section.types@.len() == package@.section.types.len(),
            before == old(tables)@,
            base == before.section.types.len(),
            tables_closed(package@),
            strings@.len() == package@.section.strings.len(),
            forall|i: int| 0 <= i < strings@.len() ==> (#[trigger] strings@[i]) is Some,
            base + package@.section.types.len() <= u32::MAX,
            tables_grown(before, tables@),
            tables@.section.strings == before.section.strings,
            tables@.files == before.files,
            tables@.locations == before.locations,
            tables@.errors == before.errors,
            map@.len() == i,
            forall|k: int| 0 <= k < i ==> #[trigger] map@[k] == Some((base + k) as u32),
            tables@.section.types.len() == base + i,
            forall|k: int|
                0 <= k < i ==> #[trigger] tables@.section.types[base + k] == moved_row(
                    package@.section.types[k],
                    strings@,
                    base as nat,
                ),
        decreases package.section.types@.len() - i,
    {
        let ghost now = tables@;
        assert(package@.section.types[i as int] == package.section.types@[i as int]@);
        assert(row_ok(
            package@.section.types[i as int],
            package@.section.strings.len(),
            package@.section.types.len(),
        ));
        let row = move_row(
            &package.section.types[i],
            strings,
            base,
            Ghost(package@.section.types.len()),
        );
        let ghost model = row@;
        match tables.section.add_type(row) {
            Ok(idx) => {
                map.push(Some(idx));
            },
            Err(_) => {
                assert(false);
            },
        }
        proof {
            assert forall|k: int| 0 <= k < i + 1 implies #[trigger] tables@.section.types[base + k]
                == moved_row(package@.section.types[k], strings@, base as nat) by {
                if k < i {
                    assert(tables@.section.types[base + k] == now.section.types[base + k]);
                }
            }
        }
        i += 1;
    }
    assert(map@ =~= behind(before.section.types.len(), package@.section.types.len()));
    map
}

/// Adds messages; the first message of a code stays.
fn import_errors(tables: &mut DebugTables, package: &DebugTables)
    requires
        tables_closed(package@),
        strings_known(package@, old(tables)@),
        old(tables)@.section.strings.len() <= u32::MAX,
    ensures
        tables_grown(old(tables)@, final(tables)@),
        final(tables)@.section == old(tables)@.section,
        final(tables)@.files == old(tables)@.files,
        final(tables)@.locations == old(tables)@.locations,
        messages_added(package@, old(tables)@, final(tables)@, package@.errors.len()),
        final(tables)@ == tables_with(
            old(tables)@,
            package_messages(package@),
            package@.errors.len(),
        ),
{
    let ghost before = tables@;
    let ghost rows = package_messages(package@);
    let mut i: usize = 0;
    while i < package.errors.len()
        invariant
            i <= package.errors@.len(),
            before == old(tables)@,
            tables_closed(package@),
            strings_known(package@, before),
            before.section.strings.len() <= u32::MAX,
            tables_grown(before, tables@),
            tables@.section == before.section,
            tables@.files == before.files,
            tables@.locations == before.locations,
            rows == package_messages(package@),
            messages_added(package@, before, tables@, i as nat),
            tables@ == tables_with(before, rows, i as nat),
        decreases package.errors@.len() - i,
    {
        let ghost now = tables@;
        let (code, name) = package.errors[i];
        assert(package@.errors[i as int].1 < package@.section.strings.len());
        let text = package.section.strings[name as usize].clone();
        proof {
            assert(text@ == package@.section.strings[name as int]);
            crate::debug_types::lemma_known_name(tables@.section.strings, text@);
        }
        let ghost shown = text@;
        match tables.add_error_message(code, text) {
            Ok(_) => {},
            Err(_) => {
                assert(false);
            },
        }
        proof {
            assert(rows[i as int] == (code, shown));
            if messages_ok(before) {
                lemma_messages_ok(now, tables@, code, shown);
                assert forall|c: u64| #[trigger] message_text(tables@, c) == with_messages(
                    before,
                    rows,
                    c,
                    (i + 1) as nat,
                ) by {
                    assert(message_text(now, c) == with_messages(before, rows, c, i as nat));
                    lemma_message_added(now, tables@, code, shown, c);
                }
            }
        }
        assert(tables@.section.strings =~= before.section.strings);
        assert(tables@.section == before.section);
        i += 1;
    }
}

impl DebugTables {
    /// Imports the tables of a package, and its functions behind those that are known.
    ///
    /// Refuses entries that refer to ones that are not there, and entries that might not have room.
    pub fn import(
        &mut self,
        known: &mut Vec<FunctionInfo>,
        other: &DebugTables,
        functions: &Vec<FunctionInfo>,
    ) -> (res: Result<DebugInfoTableRemapping, DebugTypeError>)
        ensures
            ({
                let closed = tables_closed(other@) && functions_closed(functions@, other@);
                let crowded = import_crowded(other@, functions@, old(self)@, old(known)@);
                match res {
                    Ok(map) => closed && !crowded && is_import(
                        other@,
                        functions@,
                        old(self)@,
                        final(self)@,
                        old(known)@,
                        final(known)@,
                        map@,
                    ),
                    Err(e) => {
                        &&& e == if !closed {
                            DebugTypeError::MissingEntry
                        } else {
                            DebugTypeError::TableFull
                        }
                        &&& !closed || crowded
                        &&& *final(self) == *old(self)
                        &&& *final(known) == *old(known)
                    },
                }
            }),
    {
        if !tables_are_closed(other) || !functions_are_closed(functions, other) {
            return Err(DebugTypeError::MissingEntry);
        }
        let ghost before = self@;
        let ghost from = other@;
        let limit: usize = u32::MAX as usize;
        if !has_room(self.section.strings.len(), other.section.strings.len(), limit) || !has_room(
            self.section.types.len(),
            other.section.types.len(),
            limit,
        ) || !has_room(self.files.len(), other.files.len(), limit) || !has_room(
            self.locations.len(),
            other.locations.len(),
            limit,
        ) || !has_room(known.len(), functions.len(), limit) {
            return Err(DebugTypeError::TableFull);
        }
        let strings = import_strings(self, &other.section.strings, Ghost(from.section.strings));
        let ghost with_strings = self@;
        proof {
            assert forall|i: int|
                0 <= i < from.section.strings.len() implies with_strings.section.strings.contains(
                #[trigger] from.section.strings[i],
            ) by {
                assert(strings@[i] is Some);
                let idx = strings@[i]->0;
                assert(with_strings.section.strings[idx as int] == from.section.strings[i]);
            }
        }
        let files = import_files(self, other);
        let ghost with_files = self@;
        let locations = import_locations(self, other, &files);
        let ghost with_locations = self@;
        let base: u32 = self.section.types.len() as u32;
        let types = import_types(self, other, &strings);
        let ghost with_types = self@;
        proof {
            if messages_ok(before) {
                assert forall|code: u64| #[trigger] message_text(with_types, code) == message_text(
                    before,
                    code,
                ) by {
                    lemma_message_text_stays(before, with_types, code);
                }
                lemma_message_text_stays(before, with_types, 0);
            }
        }
        proof {
            let names = names_with(
                before.section.strings,
                from.section.strings,
                from.section.strings.len(),
            );
            let n = before.section.types.len();
            assert(with_types.section.types =~= before.section.types + Seq::new(
                from.section.types.len(),
                |i: int| moved_row(from.section.types[i], strings@, n),
            )) by {
                assert forall|i: int| 0 <= i < with_types.section.types.len() implies (
                #[trigger] with_types.section.types[i]) == (before.section.types + Seq::new(
                    from.section.types.len(),
                    |i: int| moved_row(from.section.types[i], strings@, n),
                ))[i] by {
                    if i >= n {
                        assert(with_types.section.types[n + (i - n)] == moved_row(
                            from.section.types[i - n],
                            strings@,
                            n,
                        ));
                    }
                }
            }
            assert(with_types.section.strings == names);
        }
        import_errors(self, other);
        proof {
            if messages_ok(before) {
                assert forall|code: u64| #[trigger] message_text(self@, code) == with_messages(
                    before,
                    package_messages(from),
                    code,
                    from.errors.len(),
                ) by {
                    assert(message_text(with_types, code) == message_text(before, code));
                }
            }
        }
        let moved = import_functions(
            known,
            other,
            functions,
            &strings,
            &files,
            base,
        );
        let map = DebugInfoTableRemapping { strings, locations, types, functions: moved };
        proof {
            assert forall|i: int| 0 <= i < from.section.strings.len() implies ((
            #[trigger] map.strings@[i]) matches Some(idx) && is_name(
                self@.section,
                idx,
                from.section.strings[i],
            )) by {
                assert(is_name(with_strings.section, strings@[i]->0, from.section.strings[i]));
            }
            assert forall|i: int| 0 <= i < from.files.len() implies ((#[trigger] files@[i]) matches
                Some(idx) && is_file(
                self@,
                idx,
                from.section.strings[from.files[i] as int],
            )) by {
                assert(is_file(
                    with_files,
                    files@[i]->0,
                    from.section.strings[from.files[i] as int],
                ));
            }
            lemma_is_import(
                from,
                functions@,
                before,
                self@,
                old(known)@,
                known@,
                map@,
                files@,
            );
        }
        Ok(map)
    }
}

fn has_room(n: usize, more: usize, limit: usize) -> (res: bool)
    ensures
        res == (n + more <= limit),
{
    n <= limit && more <= limit - n
}

/// Adds functions behind those that are known.
fn import_functions(
    known: &mut Vec<FunctionInfo>,
    other: &DebugTables,
    functions: &Vec<FunctionInfo>,
    strings: &Vec<Option<u32>>,
    files: &Vec<Option<u32>>,
    base: u32,
) -> (map: Vec<Option<u32>>)
    requires
        functions_closed(functions@, other@),
        strings@.len() == other@.section.strings.len(),
        files@.len() == other@.files.len(),
        forall|i: int| 0 <= i < strings@.len() ==> (#[trigger] strings@[i]) is Some,
        forall|i: int| 0 <= i < files@.len() ==> (#[trigger] files@[i]) is Some,
        base + other@.section.types.len() <= u32::MAX,
        old(known)@.len() + functions@.len() <= u32::MAX,
    ensures
        ({
            let n = old(known)@.len();
            &&& map@ == behind(n, functions@.len())
            &&& final(known)@.len() == n + functions@.len()
            &&& is_prefix(old(known)@, final(known)@)
            &&& forall|i: int|
                0 <= i < functions@.len() ==> #[trigger] final(known)@[n + i]
                    == moved_function(functions@[i], strings@, files@, base as nat)
        }),
{
    let ghost before = known@;
    let n: u32 = known.len() as u32;
    let mut map: Vec<Option<u32>> = Vec::new();
    let mut i: usize = 0;
    while i < functions.len()
        invariant
            i <= functions@.len(),
            before == old(known)@,
            n == before.len(),
            n + functions@.len() <= u32::MAX,
            functions_closed(functions@, other@),
            strings@.len() == other@.section.strings.len(),
            files@.len() == other@.files.len(),
            forall|i: int| 0 <= i < strings@.len() ==> (#[trigger] strings@[i]) is Some,
            forall|i: int| 0 <= i < files@.len() ==> (#[trigger] files@[i]) is Some,
            base + other@.section.types.len() <= u32::MAX,
            known@.len() == n + i,
            is_prefix(before, known@),
            map@.len() == i,
            forall|k: int| 0 <= k < i ==> #[trigger] map@[k] == Some((n + k) as u32),
            forall|k: int|
                0 <= k < i ==> #[trigger] known@[n + k] == moved_function(
                    functions@[k],
                    strings@,
                    files@,
                    base as nat,
                ),
        decreases functions@.len() - i,
    {
        let function = functions[i];
        assert(function_ok(functions@[i as int], other@));
        let ghost now = known@;
        known.push(
            FunctionInfo {
                source_node: None,
                name_idx: mapped(strings, function.name_idx),
                linkage_name_idx: match function.linkage_name_idx {
                    Some(idx) => Some(mapped(strings, idx)),
                    None => None,
                },
                file_idx: mapped(files, function.file_idx),
                line: function.line,
                column: function.column,
                type_idx: match function.type_idx {
                    Some(idx) => Some(base + idx),
                    None => None,
                },
                mast_root: function.mast_root,
            },
        );
        map.push(Some(n + i as u32));
        proof {
            assert forall|k: int| 0 <= k < i + 1 implies #[trigger] known@[n + k]
                == moved_function(functions@[k], strings@, files@, base as nat) by {
                if k < i {
                    assert(known@[n + k] == now[n + k]);
                }
            }
        }
        i += 1;
    }
    assert(map@ =~= behind(before.len(), functions@.len()));
    map
}

// IMPORTING ONCE
// ================================================================================================

/// Where the entries of a library went, if its tables were imported.
pub open spec fn slot_of(imports: Seq<Option<TablesModel>>, library: int) -> Option<TablesModel> {
    if 0 <= library < imports.len() {
        imports[library]
    } else {
        None
    }
}

/// What is known of imports, with where the entries of one more library went.
pub open spec fn with_slot(
    imports: Seq<Option<TablesModel>>,
    library: int,
    map: TablesModel,
) -> Seq<Option<TablesModel>> {
    Seq::new(
        if imports.len() <= library {
            (library + 1) as nat
        } else {
            imports.len()
        },
        |i: int|
            if i == library {
                Some(map)
            } else {
                slot_of(imports, i)
            },
    )
}

/// The tables and the functions of a package were imported, and the library's slot says where they
/// went. Nothing else changed.
pub open spec fn tables_imported(
    b: BuilderModel,
    after: BuilderModel,
    library: int,
    package: PackageModel,
    map: TablesModel,
) -> bool {
    &&& after == (BuilderModel {
        tables: after.tables,
        imports: with_slot(b.imports, library, map),
        graph: GraphModel { functions: after.graph.functions, ..b.graph },
        ..b
    })
    &&& tables_closed(package.tables)
    &&& functions_closed(package.functions, package.tables)
    &&& !import_crowded(package.tables, package.functions, b.tables, b.graph.functions)
    &&& is_import(
        package.tables,
        package.functions,
        b.tables,
        after.tables,
        b.graph.functions,
        after.graph.functions,
        map,
    )
}

/// The entries of a library are in the tables, where `map` says. They are imported once: where the
/// library's slot is filled, nothing changes.
pub open spec fn with_tables(
    b: BuilderModel,
    after: BuilderModel,
    library: int,
    package: PackageModel,
    map: TablesModel,
) -> bool {
    match slot_of(b.imports, library) {
        Some(known) => after == b && map == known,
        None => tables_imported(b, after, library, package, map),
    }
}

/// Why the tables of a library cannot be imported.
pub open spec fn import_failed(
    b: BuilderModel,
    library: int,
    package: PackageModel,
    e: DebugTypeError,
) -> bool {
    let closed = tables_closed(package.tables) && functions_closed(
        package.functions,
        package.tables,
    );
    &&& slot_of(b.imports, library) is None
    &&& e == if !closed {
        DebugTypeError::MissingEntry
    } else {
        DebugTypeError::TableFull
    }
    &&& !closed || import_crowded(
        package.tables,
        package.functions,
        b.tables,
        b.graph.functions,
    )
}

/// Importing tables extends a builder.
pub proof fn lemma_with_tables_extends(
    b: BuilderModel,
    after: BuilderModel,
    library: int,
    package: PackageModel,
    map: TablesModel,
)
    requires
        b.wf(),
        0 <= library,
        with_tables(b, after, library, package, map),
    ensures
        after.wf(),
        extends(b, after),
        slot_of(after.imports, library) == Some(map),
{
    lemma_extends_refl(b);
    if slot_of(b.imports, library) is None {
        lemma_imported_functions(
            package.tables,
            package.functions,
            b.tables,
            after.tables,
            b.graph.functions,
            after.graph.functions,
            map,
        );
        assert(tables_grown(b.tables, after.tables)) by {
            reveal(is_import);
        }
        assert forall|i: int| 0 <= i < after.graph.functions.len() implies (
        (#[trigger] after.graph.functions[i]).source_node matches Some(s) ==> s
            < after.graph.nodes.len()) by {
            if i < b.graph.functions.len() {
                assert(after.graph.functions[i] == b.graph.functions[i]);
            }
        }
        assert(entries_kept(b, after)) by {
            reveal(entries_kept);
        }
    }
}

impl MastForestBuilder {
    /// Where the entries of a library went, if its tables were imported.
    fn find_import(&self, library: usize) -> (map: Option<DebugInfoTableRemapping>)
        ensures
            match map {
                Some(map) => slot_of(self@.imports, library as int) == Some(map@),
                None => slot_of(self@.imports, library as int) is None,
            },
    {
        if library >= self.registry.imports.len() {
            return None;
        }
        assert(self@.imports[library as int] == import_models(self.registry.imports@)[library as int]);
        match &self.registry.imports[library] {
            Some(map) => Some(map.copy()),
            None => None,
        }
    }

    /// Imports the tables of a library, so that what refers to its entries can be linked. The first
    /// import of a library stands for all later ones.
    pub fn import_static_debug_tables(
        &mut self,
        library: usize,
        package: &PackageDebugInfo,
    ) -> (res: Result<DebugInfoTableRemapping, DebugTypeError>)
        requires
            old(self)@.wf(),
            library < usize::MAX,
        ensures
            final(self)@.wf(),
            extends(old(self)@, final(self)@),
            same_procedures(old(self).registry, final(self).registry),
            match res {
                Ok(map) => with_tables(
                    old(self)@,
                    final(self)@,
                    library as int,
                    package@,
                    map@,
                ),
                Err(e) => import_failed(old(self)@, library as int, package@, e) && *final(self)
                    == *old(self),
            },
    {
        let ghost before = self@;
        proof {
            lemma_extends_refl(before);
        }
        if let Some(map) = self.find_import(library) {
            return Ok(map);
        }
        let map = match self.registry.tables.import(
            &mut self.graph.functions,
            &package.tables,
            &package.functions,
        ) {
            Ok(map) => map,
            Err(e) => {
                return Err(e);
            },
        };
        let ghost was = self.registry.imports@;
        let ghost now = *self;
        while self.registry.imports.len() <= library
            invariant
                library < usize::MAX,
                was.len() <= self.registry.imports@.len(),
                self.registry.imports@.len() <= if was.len() <= library {
                    (library + 1) as nat
                } else {
                    was.len()
                },
                forall|i: int| 0 <= i < was.len() ==> self.registry.imports@[i] == was[i],
                forall|i: int|
                    was.len() <= i < self.registry.imports@.len()
                        ==> self.registry.imports@[i] is None,
                *self == (MastForestBuilder {
                    registry: Registry { imports: self.registry.imports, ..now.registry },
                    ..now
                }),
            decreases library + 1 - self.registry.imports@.len(),
        {
            self.registry.imports.push(None);
        }
        let copy = map.copy();
        self.registry.imports.set(library, Some(copy));
        proof {
            assert(before.imports == import_models(was));
            assert(self@.imports =~= with_slot(before.imports, library as int, map@));
            assert(self@.graph == (GraphModel {
                functions: self@.graph.functions,
                ..before.graph
            }));
            lemma_with_tables_extends(before, self@, library as int, package@, map@);
        }
        Ok(map)
    }
}

} // verus!
