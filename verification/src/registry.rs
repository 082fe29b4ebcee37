//! What a builder holds besides the graph: the advice map, tables of debug information, and
//! procedures.

use vstd::prelude::*;
use vstd::string::*;

use crate::debug_info::{DebugInfoTableRemapping, TablesModel};
use crate::debug_types::{
    crowded, grown, is_name, with_name, DebugTypeError, DebugTypesSection, SectionModel,
};
use crate::forest::AdviceMap;
use crate::path::GlobalItemIndex;
use crate::procedure::Procedure;

verus! {

/// A place in a source file, from one byte to another.
#[derive(Clone, Copy, PartialEq, Eq, Structural, Debug)]
pub struct DebugLocation {
    pub file_idx: u32,
    pub start: u32,
    pub end: u32,
}

/// The tables of debug information.
pub struct DebugTables {
    /// Names and types.
    pub section: DebugTypesSection,
    /// The names of files.
    pub files: Vec<u32>,
    pub locations: Vec<DebugLocation>,
    /// The messages of error codes.
    pub errors: Vec<(u64, u32)>,
}

/// The contents of [`DebugTables`].
pub ghost struct DebugTablesModel {
    pub section: SectionModel,
    pub files: Seq<u32>,
    pub locations: Seq<DebugLocation>,
    pub errors: Seq<(u64, u32)>,
}

/// Entries were appended to the tables.
pub open spec fn tables_grown(before: DebugTablesModel, after: DebugTablesModel) -> bool {
    &&& grown(before.section, after.section)
    &&& before.files.len() <= after.files.len()
    &&& forall|i: int| 0 <= i < before.files.len() ==> #[trigger] after.files[i] == before.files[i]
    &&& before.locations.len() <= after.locations.len()
    &&& forall|i: int|
        0 <= i < before.locations.len() ==> #[trigger] after.locations[i] == before.locations[i]
    &&& before.errors.len() <= after.errors.len()
    &&& forall|i: int|
        0 <= i < before.errors.len() ==> #[trigger] after.errors[i] == before.errors[i]
}

pub proof fn lemma_tables_grown_trans(
    a: DebugTablesModel,
    b: DebugTablesModel,
    c: DebugTablesModel,
)
    requires
        tables_grown(a, b),
        tables_grown(b, c),
    ensures
        tables_grown(a, c),
{
    assert forall|i: int|
        0 <= i < a.section.strings.len() implies #[trigger] c.section.strings[i]
        == a.section.strings[i] by {
        assert(b.section.strings[i] == a.section.strings[i]);
    }
    assert forall|i: int| 0 <= i < a.section.types.len() implies #[trigger] c.section.types[i]
        == a.section.types[i] by {
        assert(b.section.types[i] == a.section.types[i]);
    }
    assert forall|i: int| 0 <= i < a.files.len() implies #[trigger] c.files[i] == a.files[i] by {
        assert(b.files[i] == a.files[i]);
    }
    assert forall|i: int| 0 <= i < a.locations.len() implies #[trigger] c.locations[i]
        == a.locations[i] by {
        assert(b.locations[i] == a.locations[i]);
    }
    assert forall|i: int| 0 <= i < a.errors.len() implies #[trigger] c.errors[i] == a.errors[i] by {
        assert(b.errors[i] == a.errors[i]);
    }
}

/// There may be no room for `n` more rows and names, or for a file.
pub open spec fn tables_crowded(tables: DebugTablesModel, n: nat) -> bool {
    crowded(tables.section, n) || tables.files.len() > u32::MAX
}

/// A file of the table.
pub open spec fn is_file(tables: DebugTablesModel, idx: u32, uri: Seq<char>) -> bool {
    idx < tables.files.len() && is_name(tables.section, tables.files[idx as int], uri)
}

/// The first of the first `k` entries that is `x`.
pub open spec fn file_index(files: Seq<u32>, x: u32, k: nat) -> Option<nat>
    decreases k,
{
    if k == 0 {
        None
    } else {
        match file_index(files, x, (k - 1) as nat) {
            Some(i) => Some(i),
            None => if files[k - 1] == x {
                Some((k - 1) as nat)
            } else {
                None
            },
        }
    }
}

/// The first message for a code among the first `k`.
pub open spec fn message_of(errors: Seq<(u64, u32)>, code: u64, k: nat) -> Option<u32>
    decreases k,
{
    if k == 0 {
        None
    } else {
        match message_of(errors, code, (k - 1) as nat) {
            Some(m) => Some(m),
            None => if errors[k - 1].0 == code {
                Some(errors[k - 1].1)
            } else {
                None
            },
        }
    }
}

pub proof fn lemma_message_stays(errors: Seq<(u64, u32)>, more: (u64, u32), code: u64, k: nat)
    requires
        k <= errors.len(),
    ensures
        message_of(errors.push(more), code, k) == message_of(errors, code, k),
    decreases k,
{
    if k > 0 {
        lemma_message_stays(errors, more, code, (k - 1) as nat);
    }
}

impl DebugTables {
    pub open spec fn view(&self) -> DebugTablesModel {
        DebugTablesModel {
            section: self.section@,
            files: self.files@,
            locations: self.locations@,
            errors: self.errors@,
        }
    }

    pub fn new() -> (tables: DebugTables)
        ensures
            tables@ == no_tables(),
    {
        let tables = DebugTables {
            section: DebugTypesSection::new(),
            files: Vec::new(),
            locations: Vec::new(),
            errors: Vec::new(),
        };
        assert(tables@.section.strings =~= Seq::empty());
        assert(tables@.section.types =~= Seq::empty());
        assert(tables@.files =~= Seq::empty());
        assert(tables@.locations =~= Seq::empty());
        assert(tables@.errors =~= Seq::empty());
        tables
    }

    /// The index of a name, which is added unless it is there.
    pub fn add_string(&mut self, text: String) -> (res: Result<u32, DebugTypeError>)
        ensures
            tables_grown(old(self)@, final(self)@),
            final(self)@.files == old(self)@.files,
            final(self)@.locations == old(self)@.locations,
            final(self)@.errors == old(self)@.errors,
            final(self)@.section.types == old(self)@.section.types,
            match res {
                Ok(idx) => {
                    &&& with_name(old(self)@.section.strings, text@) == (
                        final(self)@.section.strings,
                        idx as nat,
                    )
                    &&& is_name(final(self)@.section, idx, text@)
                },
                Err(e) => e == DebugTypeError::TableFull && final(self)@ == old(self)@ && old(
                    self,
                )@.section.strings.len() > u32::MAX,
            },
    {
        self.section.add_string(text)
    }

    /// The index of a file, which is added unless it is there.
    pub fn add_file(&mut self, uri: String) -> (res: Result<u32, DebugTypeError>)
        ensures
            tables_grown(old(self)@, final(self)@),
            final(self)@.errors == old(self)@.errors,
            final(self)@.locations == old(self)@.locations,
            final(self)@.section.types == old(self)@.section.types,
            match res {
                Ok(idx) => {
                    let (strings, name) = with_name(old(self)@.section.strings, uri@);
                    let files = old(self)@.files;
                    &&& final(self)@.section.strings == strings
                    &&& is_file(final(self)@, idx, uri@)
                    &&& match file_index(files, name as u32, files.len()) {
                        Some(i) => idx == i && final(self)@.files == files,
                        None => idx == files.len() && final(self)@.files == files.push(
                            name as u32,
                        ),
                    }
                },
                Err(e) => e == DebugTypeError::TableFull && (old(self)@.section.strings.len()
                    > u32::MAX || old(self)@.files.len() > u32::MAX),
            },
    {
        let name: u32 = match self.section.add_string(uri) {
            Ok(name) => name,
            Err(e) => {
                return Err(e);
            },
        };
        let n: usize = self.files.len();
        let mut found: Option<usize> = None;
        let mut i: usize = 0;
        while i < n
            invariant
                i <= n == self.files@.len(),
                match found {
                    Some(k) => k < i && self.files@[k as int] == name && file_index(
                        self.files@,
                        name,
                        i as nat,
                    ) == Some(k as nat),
                    None => file_index(self.files@, name, i as nat) is None,
                },
            decreases n - i,
        {
            if found.is_none() && self.files[i] == name {
                found = Some(i);
            }
            i += 1;
        }
        match found {
            Some(k) => {
                if k > 4294967295 {
                    return Err(DebugTypeError::TableFull);
                }
                Ok(k as u32)
            },
            None => {
                if n > 4294967295 {
                    return Err(DebugTypeError::TableFull);
                }
                self.files.push(name);
                Ok(n as u32)
            },
        }
    }

    /// The index of a location, which is added unless it is there.
    pub fn add_location(&mut self, location: DebugLocation) -> (res: Result<u32, DebugTypeError>)
        ensures
            tables_grown(old(self)@, final(self)@),
            final(self)@.section == old(self)@.section,
            final(self)@.files == old(self)@.files,
            final(self)@.errors == old(self)@.errors,
            match res {
                Ok(idx) => {
                    &&& idx < final(self)@.locations.len()
                    &&& final(self)@.locations[idx as int] == location
                    &&& final(self)@.locations == if old(self)@.locations.contains(location) {
                        old(self)@.locations
                    } else {
                        old(self)@.locations.push(location)
                    }
                },
                Err(e) => e == DebugTypeError::TableFull && final(self)@ == old(self)@ && old(
                    self,
                )@.locations.len() > u32::MAX,
            },
    {
        let n: usize = self.locations.len();
        let mut i: usize = 0;
        while i < n
            invariant
                i <= n == self.locations@.len(),
                self == old(self),
                forall|k: int| 0 <= k < i ==> self.locations@[k] != location,
            decreases n - i,
        {
            if self.locations[i] == location {
                if i > u32::MAX as usize {
                    return Err(DebugTypeError::TableFull);
                }
                assert(self@.locations[i as int] == location);
                return Ok(i as u32);
            }
            i += 1;
        }
        if n > u32::MAX as usize {
            return Err(DebugTypeError::TableFull);
        }
        self.locations.push(location);
        Ok(n as u32)
    }

    /// Gives an error code a message, unless it has one: the first message stays.
    pub fn add_error_message(&mut self, code: u64, text: String) -> (res: Result<
        (),
        DebugTypeError,
    >)
        ensures
            tables_grown(old(self)@, final(self)@),
            match res {
                Ok(_) => final(self)@ == with_message(old(self)@, code, text@) && message_fits(
                    old(self)@,
                    code,
                    text@,
                ),
                Err(e) => e == DebugTypeError::TableFull && final(self)@ == old(self)@
                    && message_of(old(self)@.errors, code, old(self)@.errors.len()) is None && old(
                    self,
                )@.section.strings.len() > u32::MAX,
            },
    {
        let n: usize = self.errors.len();
        let mut i: usize = 0;
        while i < n
            invariant
                i <= n == self.errors@.len(),
                self == old(self),
                message_of(self.errors@, code, i as nat) is None,
            decreases n - i,
        {
            if self.errors[i].0 == code {
                proof {
                    lemma_message_found(self.errors@, code, (i + 1) as nat, n as nat);
                }
                return Ok(());
            }
            i += 1;
        }
        let ghost shown = text@;
        match self.section.add_string(text) {
            Ok(name) => {
                self.errors.push((code, name));
                assert(self@ == with_message(old(self)@, code, shown));
                Ok(())
            },
            Err(e) => Err(e),
        }
    }
}

proof fn lemma_message_found(errors: Seq<(u64, u32)>, code: u64, k: nat, n: nat)
    requires
        k <= n,
        message_of(errors, code, k) is Some,
    ensures
        message_of(errors, code, n) == message_of(errors, code, k),
    decreases n - k,
{
    if k < n {
        lemma_message_found(errors, code, k, (n - 1) as nat);
    }
}

/// Registering a message for another code, or a second one for the same code, changes nothing
/// about the message of a code.
pub proof fn law_first_message_stays(errors: Seq<(u64, u32)>, more: (u64, u32), code: u64)
    requires
        message_of(errors, code, errors.len()) is Some || more.0 != code,
    ensures
        message_of(errors.push(more), code, errors.len() + 1) == message_of(
            errors,
            code,
            errors.len(),
        ),
{
    lemma_message_stays(errors, more, code, errors.len());
}

/// A procedure by its index.
pub struct ProcedureEntry {
    pub gid: GlobalItemIndex,
    pub procedure: Procedure,
}

/// A source-level function that was inlined.
#[derive(Clone, Copy, PartialEq, Eq, Structural, Debug)]
pub struct InlineFunction {
    pub name_idx: u32,
    pub linkage_name_idx: Option<u32>,
    pub file_idx: u32,
    pub line: u32,
    pub column: u32,
    pub function_idx: u32,
}

/// What a builder holds besides the graph.
pub struct Registry {
    pub advice_map: AdviceMap,
    pub tables: DebugTables,
    /// Procedures in the order of their insertion.
    pub procedures: Vec<ProcedureEntry>,
    pub inline_functions: Vec<InlineFunction>,
    /// For each library whose tables were imported, where their entries went.
    pub imports: Vec<Option<DebugInfoTableRemapping>>,
}

pub open spec fn import_models(imports: Seq<Option<DebugInfoTableRemapping>>) -> Seq<
    Option<TablesModel>,
> {
    Seq::new(
        imports.len(),
        |i: int|
            match imports[i] {
                Some(map) => Some(map@),
                None => None,
            },
    )
}

/// Tables with a message for an error code, unless the code has one.
pub open spec fn with_message(
    tables: DebugTablesModel,
    code: u64,
    text: Seq<char>,
) -> DebugTablesModel {
    match message_of(tables.errors, code, tables.errors.len()) {
        Some(_) => tables,
        None => {
            let (strings, name) = with_name(tables.section.strings, text);
            DebugTablesModel {
                section: SectionModel { strings, ..tables.section },
                errors: tables.errors.push((code, name as u32)),
                ..tables
            }
        },
    }
}

/// There is an index for the name that a message needs.
pub open spec fn message_fits(tables: DebugTablesModel, code: u64, text: Seq<char>) -> bool {
    message_of(tables.errors, code, tables.errors.len()) is None ==> with_name(
        tables.section.strings,
        text,
    ).1 <= u32::MAX
}

/// Tables without entries.
pub open spec fn no_tables() -> DebugTablesModel {
    DebugTablesModel {
        section: SectionModel { strings: Seq::empty(), types: Seq::empty() },
        files: Seq::empty(),
        locations: Seq::empty(),
        errors: Seq::empty(),
    }
}

/// Procedures, inlined functions and advice stay as they are.
pub open spec fn same_procedures(before: Registry, after: Registry) -> bool {
    &&& after.procedures == before.procedures
    &&& after.inline_functions == before.inline_functions
    &&& after.advice_map == before.advice_map
}

impl Registry {
    /// No procedure is there twice, and the advice map is in order.
    pub open spec fn wf(self) -> bool {
        &&& self.advice_map.wf()
        &&& forall|i: int, j: int|
            0 <= i < j < self.procedures@.len() ==> (#[trigger] self.procedures@[i]).gid != (
            #[trigger] self.procedures@[j]).gid
    }

    pub fn new(advice_map: AdviceMap) -> (registry: Registry)
        requires
            advice_map.wf(),
        ensures
            registry.wf(),
            registry.advice_map == advice_map,
            registry.procedures@.len() == 0,
            registry.inline_functions@.len() == 0,
            registry.imports@.len() == 0,
            registry.tables@ == no_tables(),
    {
        Registry {
            advice_map,
            tables: DebugTables::new(),
            procedures: Vec::new(),
            inline_functions: Vec::new(),
            imports: Vec::new(),
        }
    }
}

} // verus!
