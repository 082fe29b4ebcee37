//! The sections of debug information that describe procedures.

use vstd::prelude::*;
use vstd::string::*;

use crate::debug_types::{
    crowded, denotes, grown, is_name, type_fault, weight, DebugTypeError, DebugTypesSection, TypeRow,
};
use crate::felt::Word;
use crate::procedure::Procedure;
use crate::trimmer::{below, joined_path, FsPath, PathModel, SourcePathTrimmer};
use crate::types::{Type, TypeModel};

verus! {

/// A procedure in debug information.
#[derive(Clone, Copy, PartialEq, Eq, Structural, Debug)]
pub struct DebugFunctionInfo {
    pub name_idx: u32,
    pub file_idx: u32,
    pub line: u32,
    pub column: u32,
    pub type_idx: Option<u32>,
    pub mast_root: Word,
}

/// The sections of debug information: procedures and their names, types, and source files.
pub struct DebugInfoSections {
    pub functions: Vec<DebugFunctionInfo>,
    pub names: DebugTypesSection,
    pub types: DebugTypesSection,
    pub files: Vec<FsPath>,
}

pub open spec fn file_models(files: Seq<FsPath>) -> Seq<PathModel> {
    Seq::new(files.len(), |i: int| files[i]@)
}

/// A row describes a procedure.
pub open spec fn is_function_row(
    sections: DebugInfoSections,
    row: DebugFunctionInfo,
    procedure: Procedure,
    file: PathModel,
    line: u32,
    column: u32,
) -> bool {
    &&& is_name(sections.names@, row.name_idx, procedure.path@.text())
    &&& row.file_idx < sections.files@.len()
    &&& file_models(sections.files@)[row.file_idx as int] == file
    &&& row.line == line
    &&& row.column == column
    &&& match procedure.signature {
        Some(signature) => row.type_idx matches Some(t) && denotes(
            sections.types@,
            t,
            Some(procedure.path@.text()),
            None,
            signature@,
        ),
        None => row.type_idx is None,
    }
    &&& row.mast_root == procedure.mast_root
}

impl DebugInfoSections {
    pub fn new() -> (sections: DebugInfoSections)
        ensures
            sections.functions@.len() == 0,
            sections.names@.strings.len() == 0,
            sections.types@.types.len() == 0,
            sections.files@.len() == 0,
    {
        DebugInfoSections {
            functions: Vec::new(),
            names: DebugTypesSection::new(),
            types: DebugTypesSection::new(),
            files: Vec::new(),
        }
    }

    /// Describes a procedure whose place is known: a file, a line and a column.
    pub fn register_procedure_debug_info(
        &mut self,
        procedure: &Procedure,
        file: FsPath,
        line: u32,
        column: u32,
    ) -> (res: Result<(), DebugTypeError>)
        ensures
            grown(old(self).names@, final(self).names@),
            grown(old(self).types@, final(self).types@),
            match res {
                Ok(_) => {
                    &&& final(self).functions@.len() == old(self).functions@.len() + 1
                    &&& final(self).functions@.drop_last() == old(self).functions@
                    &&& file_models(final(self).files@) == file_models(old(self).files@).push(
                        file@,
                    )
                    &&& is_function_row(
                        *final(self),
                        final(self).functions@.last(),
                        *procedure,
                        file@,
                        line,
                        column,
                    )
                },
                Err(e) => {
                    &&& final(self).functions == old(self).functions
                    &&& e == DebugTypeError::TableFull && (old(self).names@.strings.len() > u32::MAX
                        || old(self).files@.len() > u32::MAX) || (procedure.signature matches Some(
                        signature,
                    ) && (e == DebugTypeError::TableFull && crowded(
                        old(self).types@,
                        weight(signature@),
                    ) || type_fault(signature@) == Some(e)))
                },
            },
    {
        if self.files.len() > u32::MAX as usize {
            return Err(DebugTypeError::TableFull);
        }
        let ghost files = file_models(self.files@);
        let file_idx: u32 = self.files.len() as u32;
        self.files.push(file);
        assert(file_models(self.files@) =~= files.push(file@));
        let name = procedure.path.to_string();
        let name_idx: u32 = match self.names.add_string(name.clone()) {
            Ok(idx) => idx,
            Err(e) => {
                return Err(e);
            },
        };
        let type_idx: Option<u32> = match &procedure.signature {
            Some(signature) => {
                let ty = Type::Function(Box::new(signature.copy()));
                proof {
                    crate::types::lemma_function_view(*signature);
                }
                match self.types.register_debug_type(Some(name), None, &ty) {
                    Ok(idx) => Some(idx),
                    Err(e) => {
                        return Err(e);
                    },
                }
            },
            None => None,
        };
        let ghost before = self.functions@;
        self.functions.push(
            DebugFunctionInfo {
                name_idx,
                file_idx,
                line,
                column,
                type_idx,
                mast_root: procedure.mast_root,
            },
        );
        assert(self.functions@.drop_last() =~= before);
        Ok(())
    }

    /// Trims the paths of the source files, whose canonical forms are in `canonical` as far as they
    /// have some.
    pub fn trim_paths(&mut self, trimmer: &SourcePathTrimmer, canonical: Vec<Option<FsPath>>)
        requires
            canonical@.len() == old(self).files@.len(),
        ensures
            final(self).functions == old(self).functions,
            final(self).names == old(self).names,
            final(self).types == old(self).types,
            final(self).files@.len() == old(self).files@.len(),
            forall|i: int|
                0 <= i < old(self).files@.len() ==> (#[trigger] final(self).files@[i])@
                    == trimmed_path(trimmer.cwd@, old(self).files@[i]@, canonical@[i]),
    {
        let ghost before = self.files@;
        let ghost found = canonical@;
        let mut rest = canonical;
        let n: usize = self.files.len();
        let mut i: usize = 0;
        while i < n
            invariant
                i <= n == self.files@.len() == before.len() == found.len(),
                self.functions == old(self).functions,
                self.names == old(self).names,
                self.types == old(self).types,
                rest@ == found.skip(i as int),
                forall|k: int|
                    0 <= k < i ==> (#[trigger] self.files@[k])@ == trimmed_path(
                        trimmer.cwd@,
                        before[k]@,
                        found[k],
                    ),
                forall|k: int| i <= k < n ==> #[trigger] self.files@[k] == before[k],
            decreases n - i,
        {
            let looked_up = rest.remove(0);
            assert(looked_up == found[i as int]);
            let trimmed = trimmer.trim_path(&self.files[i], looked_up);
            self.files[i] = trimmed;
            assert(rest@ =~= found.skip(i + 1));
            i += 1;
        }
    }
}

/// A path without the working directory, if it is below it.
pub open spec fn trimmed_path(cwd: PathModel, path: PathModel, canonical: Option<FsPath>) -> PathModel {
    let looked_up = match canonical {
        Some(c) => c@,
        None => joined_path(cwd, path),
    };
    match below(cwd, looked_up) {
        Some(rest) => PathModel { is_absolute: false, components: rest },
        None => path,
    }
}

/// A path that is trimmed still names the file: joined to the directory it is where the path leads.
/// It is trimmed if and only if it leads below the directory; else it stays as it is.
pub proof fn law_trimmed_paths_name_the_file(
    cwd: PathModel,
    path: PathModel,
    canonical: Option<FsPath>,
)
    ensures
        ({
            let leads = match canonical {
                Some(c) => c@,
                None => joined_path(cwd, path),
            };
            let trimmed = trimmed_path(cwd, path, canonical);
            if below(cwd, leads) is Some {
                !trimmed.is_absolute && joined_path(cwd, trimmed) == leads
            } else {
                trimmed == path
            }
        }),
{
    let leads = match canonical {
        Some(c) => c@,
        None => joined_path(cwd, path),
    };
    crate::trimmer::law_trimmed_paths_are_found_again(cwd, leads);
}

/// The row of a procedure names it by its path, says where it is, and describes its signature if it
/// has one.
pub proof fn law_function_rows_name_their_procedure(
    sections: DebugInfoSections,
    row: DebugFunctionInfo,
    procedure: Procedure,
    file: PathModel,
    line: u32,
    column: u32,
)
    requires
        is_function_row(sections, row, procedure, file, line, column),
    ensures
        row.name_idx < sections.names@.strings.len(),
        sections.names@.strings[row.name_idx as int] == procedure.path@.text(),
        sections.files@[row.file_idx as int]@ == file,
        row.line == line && row.column == column,
        row.mast_root == procedure.mast_root,
        row.type_idx is Some <==> procedure.signature is Some,
        procedure.signature matches Some(signature) ==> (signature@ matches TypeModel::Function(
            _,
            params,
            _,
        ) && sections.types@.types[row.type_idx->0 as int] matches TypeRow::Function(_, rows)
            && rows.len() == params.len()),
{
}

} // verus!
