//! Procedures, messages and advice that a builder is given.

use vstd::prelude::*;
use vstd::string::*;

use crate::builder::{
    entries_kept, extends, functions_kept, is_fresh, is_prefix, is_settled, lemma_entries_kept,
    lemma_extends_refl, lemma_extends_trans, lemma_tables_extend, BuilderModel, MastForestBuilder,
};
use crate::debug_info::{DebugSourceCallFrame, SourceModel};
use crate::debug_types::{
    denotes, is_name, registered, type_fault, weight, with_name, DebugTypeError, SectionModel,
};
use crate::debug_var::FileLineCol;
use crate::felt::{Felt, Word};
use crate::forest::{inserted, rank, sorted, AdviceMap, AdviceModel};
use crate::path::GlobalItemIndex;
use crate::pending::{MastNodeUse, SourceNodeRef};
use crate::procedure::{source_name, AssemblerError, Procedure};
use crate::registry::{
    file_index, is_file, lemma_tables_grown_trans, message_fits, no_tables, same_procedures, tables_crowded,
    tables_grown, with_message, DebugTables, DebugTablesModel, InlineFunction, ProcedureEntry,
};
use crate::source_graph::{BuildError, FunctionInfo, GraphModel};
use crate::static_metadata::PackageDebugInfo;
use crate::types::Type;

verus! {

/// Why a procedure cannot be inserted.
#[derive(Clone, Copy, PartialEq, Eq, Structural, Debug)]
pub enum ProcedureError {
    /// The procedure was compiled before, to other code.
    DifferentRoots,
    /// Another procedure has the same code, but another number of locals.
    ConflictingLocals,
    SourceName(AssemblerError),
    Build(BuildError),
    Tables(DebugTypeError),
}

// LOOKING PROCEDURES UP
// ================================================================================================

/// The place of a procedure among the first `k`.
pub open spec fn procedure_index(
    list: Seq<ProcedureEntry>,
    gid: GlobalItemIndex,
    k: nat,
) -> Option<nat>
    decreases k,
{
    if k == 0 {
        None
    } else {
        match procedure_index(list, gid, (k - 1) as nat) {
            Some(i) => Some(i),
            None => if list[k - 1].gid == gid {
                Some((k - 1) as nat)
            } else {
                None
            },
        }
    }
}

/// The place of the first procedure with a digest among the first `k`.
pub open spec fn root_index(list: Seq<ProcedureEntry>, mast_root: Word, k: nat) -> Option<nat>
    decreases k,
{
    if k == 0 {
        None
    } else {
        match root_index(list, mast_root, (k - 1) as nat) {
            Some(i) => Some(i),
            None => if list[k - 1].procedure.mast_root == mast_root {
                Some((k - 1) as nat)
            } else {
                None
            },
        }
    }
}

pub proof fn lemma_procedure_index(list: Seq<ProcedureEntry>, gid: GlobalItemIndex, k: nat)
    requires
        k <= list.len(),
    ensures
        match procedure_index(list, gid, k) {
            Some(i) => i < k && list[i as int].gid == gid,
            None => forall|i: int| 0 <= i < k ==> (#[trigger] list[i]).gid != gid,
        },
    decreases k,
{
    if k > 0 {
        lemma_procedure_index(list, gid, (k - 1) as nat);
    }
}

pub proof fn lemma_root_index(list: Seq<ProcedureEntry>, mast_root: Word, k: nat)
    requires
        k <= list.len(),
    ensures
        match root_index(list, mast_root, k) {
            Some(i) => i < k && list[i as int].procedure.mast_root == mast_root,
            None => forall|i: int|
                0 <= i < k ==> (#[trigger] list[i]).procedure.mast_root != mast_root,
        },
    decreases k,
{
    if k > 0 {
        lemma_root_index(list, mast_root, (k - 1) as nat);
    }
}

/// What becomes of a procedure: it was there already, it is refused, or it is new.
///
/// Procedures may share their code. If one of them has no locals, it does nothing but run the
/// other; if both have locals, they have to have as many.
pub enum Verdict {
    Known,
    Refused(ProcedureError),
    New,
}

pub open spec fn verdict(
    list: Seq<ProcedureEntry>,
    gid: GlobalItemIndex,
    procedure: Procedure,
) -> Verdict {
    match procedure_index(list, gid, list.len()) {
        Some(i) => if list[i as int].procedure.mast_root != procedure.mast_root {
            Verdict::Refused(ProcedureError::DifferentRoots)
        } else {
            Verdict::Known
        },
        None => {
            let conflict = match root_index(list, procedure.mast_root, list.len()) {
                Some(i) => {
                    let locals = list[i as int].procedure.num_locals;
                    locals != procedure.num_locals && locals > 0 && procedure.num_locals > 0
                },
                None => false,
            };
            if conflict {
                Verdict::Refused(ProcedureError::ConflictingLocals)
            } else {
                match source_name(procedure.path@, procedure.attributes) {
                    Err(e) => Verdict::Refused(ProcedureError::SourceName(e)),
                    Ok(_) => Verdict::New,
                }
            }
        },
    }
}

impl MastForestBuilder {
    fn procedure_at(&self, gid: GlobalItemIndex) -> (at: Option<usize>)
        ensures
            match at {
                Some(i) => i < self.registry.procedures@.len() && procedure_index(
                    self.registry.procedures@,
                    gid,
                    self.registry.procedures@.len(),
                ) == Some(i as nat),
                None => procedure_index(
                    self.registry.procedures@,
                    gid,
                    self.registry.procedures@.len(),
                ) is None,
            },
    {
        let list = &self.registry.procedures;
        let mut found: Option<usize> = None;
        let mut i: usize = 0;
        while i < list.len()
            invariant
                i <= list@.len(),
                match found {
                    Some(k) => k < i && procedure_index(list@, gid, i as nat) == Some(k as nat),
                    None => procedure_index(list@, gid, i as nat) is None,
                },
            decreases list@.len() - i,
        {
            if found.is_none() && list[i].gid == gid {
                found = Some(i);
            }
            i += 1;
        }
        found
    }

    /// The procedure with an index.
    pub fn get_procedure(&self, gid: GlobalItemIndex) -> (procedure: Option<&Procedure>)
        ensures
            ({
                let list = self.registry.procedures@;
                match procedure_index(list, gid, list.len()) {
                    Some(i) => procedure == Some(&list[i as int].procedure),
                    None => procedure is None,
                }
            }),
    {
        match self.procedure_at(gid) {
            Some(i) => Some(&self.registry.procedures[i].procedure),
            None => None,
        }
    }

    /// The first procedure that was inserted with a digest.
    pub fn find_procedure_by_mast_root(&self, mast_root: &Word) -> (procedure: Option<&Procedure>)
        ensures
            ({
                let list = self.registry.procedures@;
                match root_index(list, *mast_root, list.len()) {
                    Some(i) => procedure == Some(&list[i as int].procedure),
                    None => procedure is None,
                }
            }),
    {
        let list = &self.registry.procedures;
        let mut found: Option<usize> = None;
        let mut i: usize = 0;
        while i < list.len()
            invariant
                i <= list@.len(),
                match found {
                    Some(k) => k < i && root_index(list@, *mast_root, i as nat) == Some(k as nat),
                    None => root_index(list@, *mast_root, i as nat) is None,
                },
            decreases list@.len() - i,
        {
            if found.is_none() && list[i].procedure.mast_root == *mast_root {
                found = Some(i);
            }
            i += 1;
        }
        match found {
            Some(k) => Some(&list[k].procedure),
            None => None,
        }
    }

    /// Decides what becomes of a procedure.
    pub fn judge_procedure(&self, gid: GlobalItemIndex, procedure: &Procedure) -> (res: Verdict)
        requires
            procedure.path@.components.len() > 0,
        ensures
            res == verdict(self.registry.procedures@, gid, *procedure),
    {
        if let Some(cached) = self.get_procedure(gid) {
            if cached.mast_root != procedure.mast_root {
                return Verdict::Refused(ProcedureError::DifferentRoots);
            }
            return Verdict::Known;
        }
        if let Some(cached) = self.find_procedure_by_mast_root(&procedure.mast_root) {
            if cached.num_locals != procedure.num_locals && cached.num_locals > 0
                && procedure.num_locals > 0 {
                return Verdict::Refused(ProcedureError::ConflictingLocals);
            }
        }
        match procedure.source_name_fully_qualified() {
            Err(e) => Verdict::Refused(ProcedureError::SourceName(e)),
            Ok(_) => Verdict::New,
        }
    }
}

// INSERTING PROCEDURES
// ================================================================================================

/// The name of a procedure in the source, else its path.
pub open spec fn shown_name(procedure: Procedure) -> Seq<char> {
    match source_name(procedure.path@, procedure.attributes) {
        Ok(Some(path)) => path.text(),
        _ => procedure.path@.text(),
    }
}

/// A function of debug information describes a procedure: its name, its place, its type, and the
/// name by which it is linked if that is another one.
pub open spec fn describes(
    tables: DebugTablesModel,
    function: FunctionInfo,
    procedure: Procedure,
    location: FileLineCol,
    source: u32,
) -> bool {
    &&& function.source_node == Some(source)
    &&& is_name(tables.section, function.name_idx, shown_name(procedure))
    &&& match source_name(procedure.path@, procedure.attributes) {
        Ok(Some(_)) => function.linkage_name_idx matches Some(l) && is_name(
            tables.section,
            l,
            procedure.path@.text(),
        ),
        _ => function.linkage_name_idx is None,
    }
    &&& is_file(tables, function.file_idx, location.uri@)
    &&& function.line == location.line
    &&& function.column == location.column
    &&& match procedure.signature {
        Some(signature) => function.type_idx matches Some(t) && denotes(
            tables.section,
            t,
            Some(shown_name(procedure)),
            None,
            signature@,
        ),
        None => function.type_idx is None,
    }
    &&& function.mast_root == procedure.mast_root
}

/// The body of a procedure as an occurrence of its own: with the procedure as its outermost call
/// frame, if its place is known.
pub open spec fn body_occurrence(
    body: SourceModel,
    function: u32,
    location: Option<FileLineCol>,
) -> SourceModel {
    match location {
        None => body,
        Some(_) => SourceModel {
            call_frames: seq![
                DebugSourceCallFrame {
                    op_start: body.op_start,
                    op_end: body.op_end,
                    function_idx: function,
                    inherited_inline_calls: 0,
                },
            ] + body.call_frames,
            ..body
        },
    }
}

/// Tables with a file, a name, and maybe another name, each of which is added unless it is there.
pub open spec fn named_tables(
    tables: DebugTablesModel,
    uri: Seq<char>,
    name: Seq<char>,
    other: Option<Seq<char>>,
) -> DebugTablesModel {
    let (with_uri, file) = with_name(tables.section.strings, uri);
    let named = with_name(with_uri, name).0;
    DebugTablesModel {
        section: SectionModel {
            strings: match other {
                Some(text) => with_name(named, text).0,
                None => named,
            },
            ..tables.section
        },
        files: match file_index(tables.files, file as u32, tables.files.len()) {
            Some(_) => tables.files,
            None => tables.files.push(file as u32),
        },
        ..tables
    }
}

/// The name by which a procedure is linked, if that is another one than the one in the source.
pub open spec fn linkage_name(procedure: Procedure) -> Option<Seq<char>> {
    match source_name(procedure.path@, procedure.attributes) {
        Ok(Some(_)) => Some(procedure.path@.text()),
        _ => None,
    }
}

/// Tables were given what a function says of a procedure, and nothing else: its file, its names,
/// and the rows of its type.
pub open spec fn tables_describe(
    before: DebugTablesModel,
    after: DebugTablesModel,
    procedure: Procedure,
    location: FileLineCol,
    function: FunctionInfo,
) -> bool {
    let named = named_tables(
        before,
        location.uri@,
        shown_name(procedure),
        linkage_name(procedure),
    );
    match procedure.signature {
        None => after == named,
        Some(signature) => {
            &&& after == (DebugTablesModel { section: after.section, ..named })
            &&& function.type_idx matches Some(t) && registered(
                named.section,
                after.section,
                Some(shown_name(procedure)),
                None,
                signature@,
                Ok(t),
            )
        },
    }
}

/// A procedure was inserted: its body has an occurrence of its own, which is a root, and the tables
/// hold what is said of it, if its place is known.
pub open spec fn procedure_inserted(
    b: BuilderModel,
    after: BuilderModel,
    procedure: Procedure,
    location: Option<FileLineCol>,
) -> bool {
    &&& body_inserted(b, after, procedure, location)
    &&& match location {
        None => after.tables == b.tables,
        Some(location) => tables_describe(
            b.tables,
            after.tables,
            procedure,
            location,
            after.graph.functions.last(),
        ),
    }
}

/// The body of a procedure has an occurrence of its own, which is a root.
pub open spec fn body_inserted(
    b: BuilderModel,
    after: BuilderModel,
    procedure: Procedure,
    location: Option<FileLineCol>,
) -> bool {
    let body = procedure.body_source_ref.0 as int;
    let source = b.graph.nodes.len() as u32;
    let root = procedure.body_node_ref;
    &&& after.nodes == b.nodes
    &&& after.decorated == b.decorated
    &&& after.imports == b.imports
    &&& tables_grown(b.tables, after.tables)
    &&& after.graph.nodes == b.graph.nodes.push(
        body_occurrence(b.graph.nodes[body], b.graph.functions.len() as u32, location),
    )
    &&& after.graph.boundary == b.graph.boundary.push(b.graph.boundary[body])
    &&& after.graph.history == b.graph.history
    &&& after.graph.roots == b.graph.roots.push(source)
    &&& after.roots == if b.roots.contains(root) {
        b.roots
    } else {
        b.roots.push(root)
    }
    &&& match location {
        None => after.graph.functions == b.graph.functions,
        Some(location) => {
            &&& after.graph.functions.len() == b.graph.functions.len() + 1
            &&& after.graph.functions.drop_last() == b.graph.functions
            &&& describes(
                after.tables,
                after.graph.functions.last(),
                procedure,
                location,
                source,
            )
        },
    }
}

/// How many rows and names describe a procedure at most: its file, its two names, and its type.
pub open spec fn procedure_weight(procedure: Procedure) -> nat {
    match procedure.signature {
        Some(signature) => 3 + weight(signature@),
        None => 3,
    }
}

/// Why a procedure cannot be described: there is no room in tables, or its signature cannot be
/// described.
pub open spec fn not_described(
    tables: DebugTablesModel,
    procedure: Procedure,
    e: DebugTypeError,
) -> bool {
    ||| e == DebugTypeError::TableFull && tables_crowded(tables, procedure_weight(procedure))
    ||| e != DebugTypeError::TableFull && (procedure.signature matches Some(signature)
        && type_fault(signature@) == Some(e))
}

/// Adds what a function says of a procedure to the tables.
fn describe_procedure(
    tables: &mut DebugTables,
    procedure: &Procedure,
    location: &FileLineCol,
    source: u32,
) -> (res: Result<FunctionInfo, DebugTypeError>)
    requires
        procedure.path@.components.len() > 0,
        source_name(procedure.path@, procedure.attributes) is Ok,
    ensures
        tables_grown(old(tables)@, final(tables)@),
        match res {
            Ok(function) => describes(final(tables)@, function, *procedure, *location, source)
                && tables_describe(old(tables)@, final(tables)@, *procedure, *location, function),
            Err(e) => not_described(old(tables)@, *procedure, e),
        },
{
    let file_idx: u32 = match tables.add_file(location.uri.clone()) {
        Ok(idx) => idx,
        Err(e) => {
            return Err(e);
        },
    };
    let ghost with_file = tables@;
    let linkage_name = procedure.path.to_string();
    let (name, is_other): (String, bool) = match procedure.source_name_fully_qualified() {
        Ok(Some(path)) => (path.to_string(), true),
        _ => (procedure.path.to_string(), false),
    };
    assert(name@ == shown_name(*procedure));
    let name_idx: u32 = match tables.add_string(name.clone()) {
        Ok(idx) => idx,
        Err(e) => {
            return Err(e);
        },
    };
    let linkage_name_idx: Option<u32> = if is_other {
        match tables.add_string(linkage_name) {
            Ok(idx) => Some(idx),
            Err(e) => {
                return Err(e);
            },
        }
    } else {
        None
    };
    let ghost with_names = tables@;
    proof {
        let named = named_tables(
            old(tables)@,
            location.uri@,
            shown_name(*procedure),
            crate::procedures::linkage_name(*procedure),
        );
        assert(with_names == named);
    }
    let type_idx: Option<u32> = match &procedure.signature {
        Some(signature) => {
            let ty = Type::Function(Box::new(signature.copy()));
            proof {
                crate::types::lemma_function_view(*signature);
            }
            match tables.section.register_debug_type(Some(name), None, &ty) {
                Ok(idx) => Some(idx),
                Err(e) => {
                    return Err(e);
                },
            }
        },
        None => None,
    };
    assert(is_file(tables@, file_idx, location.uri@)) by {
        assert(tables@.files == with_file.files);
    }
    Ok(
        FunctionInfo {
            source_node: Some(source),
            name_idx,
            linkage_name_idx,
            file_idx,
            line: location.line,
            column: location.column,
            type_idx,
            mast_root: procedure.mast_root,
        },
    )
}

impl MastForestBuilder {
    /// Gives the body of a procedure an occurrence of its own, and marks it as a root.
    fn insert_body(
        &mut self,
        procedure: &Procedure,
        function: Option<FunctionInfo>,
        Ghost(location): Ghost<Option<FileLineCol>>,
    )
        requires
            old(self)@.wf(),
            old(self)@.has_use(procedure.body()),
            old(self)@.graph.nodes.len() < u32::MAX,
            function is Some ==> old(self)@.graph.functions.len() <= u32::MAX,
            function is Some == location is Some,
            function matches Some(f) ==> describes(
                old(self)@.tables,
                f,
                *procedure,
                location->0,
                old(self)@.graph.nodes.len() as u32,
            ),
        ensures
            final(self).registry == old(self).registry,
            final(self)@.wf(),
            extends(old(self)@, final(self)@),
            final(self)@.tables == old(self)@.tables,
            match function {
                Some(f) => final(self)@.graph.functions == old(self)@.graph.functions.push(f),
                None => final(self)@.graph.functions == old(self)@.graph.functions,
            },
            body_inserted(old(self)@, final(self)@, *procedure, location),
    {
        let ghost b = self@;
        let none: Vec<u32> = Vec::new();
        let body: usize = procedure.body_source_ref.0 as usize;
        let source: u32 = self.graph.nodes.len() as u32;
        let mut node = self.graph.nodes[body].copy();
        let ghost model = node@;
        assert(b.graph.nodes[body as int] == model);
        if function.is_some() {
            let frame = DebugSourceCallFrame {
                op_start: node.op_start,
                op_end: node.op_end,
                function_idx: self.graph.functions.len() as u32,
                inherited_inline_calls: 0,
            };
            node.call_frames.insert(0, frame);
            assert(node@.call_frames =~= seq![frame] + model.call_frames);
        }
        assert(node@ == body_occurrence(model, b.graph.functions.len() as u32, location));
        let boundary = self.graph.boundary[body];
        proof {
            assert forall|j: int| 0 <= j < node@.children.len() implies (#[trigger] node@.children[j])
                < b.graph.nodes.len() by {
                assert(b.graph.nodes[body as int].children[j] < b.graph.nodes.len());
            }
        }
        let _ = self.graph.push(node, &none, boundary, false);
        proof {
            assert(GraphModel::functions_at(b.graph.functions, none@, source)
                =~= b.graph.functions);
            lemma_occurrence_extends(b, self@);
        }
        let ghost pushed = self@;
        if let Some(f) = function {
            self.graph.add_function(f);
        }
        let ghost described = self@;
        proof {
            lemma_occurrence_extends(b, described);
        }
        self.record_procedure_root_use(
            MastNodeUse { node_ref: procedure.body_node_ref, source_ref: SourceNodeRef(source) },
        );
        proof {
            assert(!b.graph.roots.contains(source)) by {
                if b.graph.roots.contains(source) {
                    let i = choose|i: int|
                        0 <= i < b.graph.roots.len() && b.graph.roots[i] == source;
                    assert(b.graph.roots[i] < b.graph.nodes.len());
                }
            }
            if function is Some {
                assert(described.graph.functions.drop_last() =~= b.graph.functions);
            }
            assert(functions_kept(b.graph.functions, self@.graph.functions));
            lemma_entries_kept(b, self@);
            assert(tables_grown(b.tables, self@.tables)) by {
                reveal(entries_kept);
            }
            assert(extends(b, self@)) by {
                assert forall|s: int| 0 <= s < b.graph.nodes.len() implies self@.graph.nodes[s].exec_node
                    == (#[trigger] b.graph.nodes[s]).exec_node && (is_settled(b, s)
                    ==> self@.graph.nodes[s] == b.graph.nodes[s] && is_settled(self@, s)) by {
                    assert(pushed.graph.nodes[s] == b.graph.nodes[s]);
                }
                assert forall|r: int| 0 <= r < b.graph.history.len() implies is_prefix(
                    #[trigger] b.graph.history[r],
                    self@.graph.history[r],
                ) by {
                    assert(pushed.graph.history[r] == b.graph.history[r]);
                }
            }
        }
    }

    /// Inserts a procedure.
    ///
    /// A procedure that is there already, with the same code, changes nothing. One with other code
    /// is refused, and so is one that shares the code of another but not its number of locals. The
    /// place of the procedure is what the caller found out about it.
    pub fn insert_procedure(
        &mut self,
        gid: GlobalItemIndex,
        procedure: Procedure,
        location: Option<FileLineCol>,
    ) -> (res: Result<(), ProcedureError>)
        requires
            old(self)@.wf(),
            old(self).registry.wf(),
            old(self)@.has_use(procedure.body()),
            procedure.path@.components.len() > 0,
        ensures
            final(self)@.wf(),
            final(self).registry.wf(),
            final(self).registry.advice_map == old(self).registry.advice_map,
            final(self).registry.inline_functions == old(self).registry.inline_functions,
            extends(old(self)@, final(self)@),
            match verdict(old(self).registry.procedures@, gid, procedure) {
                Verdict::Known => res is Ok && *final(self) == *old(self),
                Verdict::Refused(e) => res == Err::<(), ProcedureError>(e) && *final(self) == *old(
                    self,
                ),
                Verdict::New => match res {
                    Ok(_) => {
                        &&& procedure_inserted(
                            old(self)@,
                            final(self)@,
                            procedure,
                            location,
                        )
                        &&& final(self).registry.procedures@ == old(
                            self,
                        ).registry.procedures@.push(
                            ProcedureEntry {
                                gid,
                                procedure: Procedure {
                                    body_source_ref: SourceNodeRef(
                                        old(self)@.graph.nodes.len() as u32,
                                    ),
                                    ..procedure
                                },
                            },
                        )
                    },
                    Err(e) => {
                        &&& match e {
                            ProcedureError::Build(e) => e == BuildError::TooManySources && old(
                                self,
                            )@.graph.nodes.len() >= u32::MAX,
                            ProcedureError::Tables(e) => location is Some && (not_described(
                                old(self)@.tables,
                                procedure,
                                e,
                            ) || e == DebugTypeError::TableFull
                                && old(self)@.graph.functions.len() > u32::MAX),
                            _ => false,
                        }
                        &&& final(self)@ == (BuilderModel {
                            tables: final(self)@.tables,
                            ..old(self)@
                        })
                        &&& location is None ==> final(self)@ == old(self)@
                        &&& final(self).registry.procedures == old(self).registry.procedures
                    },
                },
            },
    {
        proof {
            crate::builder::lemma_extends_refl(self@);
        }
        match self.judge_procedure(gid, &procedure) {
            Verdict::Known => {
                return Ok(());
            },
            Verdict::Refused(e) => {
                return Err(e);
            },
            Verdict::New => {},
        }
        let ghost before = self.registry.procedures@;
        if self.graph.nodes.len() >= u32::MAX as usize {
            return Err(ProcedureError::Build(BuildError::TooManySources));
        }
        let source: u32 = self.graph.nodes.len() as u32;
        let function: Option<FunctionInfo> = match &location {
            None => None,
            Some(place) => {
                if self.graph.functions.len() > u32::MAX as usize {
                    return Err(ProcedureError::Tables(DebugTypeError::TableFull));
                }
                match describe_procedure(
                    &mut self.registry.tables,
                    &procedure,
                    place,
                    source,
                ) {
                    Ok(function) => Some(function),
                    Err(e) => {
                        proof {
                            lemma_tables_extend(old(self)@, self@);
                        }
                        return Err(ProcedureError::Tables(e));
                    },
                }
            },
        };
        let ghost mid = self@;
        proof {
            if location is Some {
                lemma_tables_extend(old(self)@, mid);
            }
        }
        self.insert_body(&procedure, function, Ghost(location));
        proof {
            lemma_extends_trans(old(self)@, mid, self@);
            lemma_tables_grown_trans(old(self)@.tables, mid.tables, self@.tables);
        }
        let mut procedure = procedure;
        procedure.set_body_source_ref(SourceNodeRef(source));
        self.registry.procedures.push(ProcedureEntry { gid, procedure });
        proof {
            lemma_procedure_index(before, gid, before.len());
        }
        Ok(())
    }
}

/// One more occurrence extends the graph.
proof fn lemma_occurrence_extends(b: BuilderModel, after: BuilderModel)
    requires
        b.wf(),
        after.graph.wf(),
        after.nodes == b.nodes,
        after.roots == b.roots,
        after.decorated == b.decorated,
        b.graph.nodes.len() <= after.graph.nodes.len(),
        after.graph.history == b.graph.history,
    ensures
        after.wf(),
{
    assert forall|i: int| 0 <= i < after.decorated.len() implies (
    #[trigger] after.decorated[i]).copy < after.graph.nodes.len() by {
        assert(b.decorated[i].copy < b.graph.nodes.len());
    }
}

/// The first procedure with a digest stays the one that is found by it.
pub proof fn law_first_procedure_stays(
    list: Seq<ProcedureEntry>,
    more: ProcedureEntry,
    mast_root: Word,
)
    requires
        root_index(list, mast_root, list.len()) is Some,
    ensures
        root_index(list.push(more), mast_root, list.len() + 1) == root_index(
            list,
            mast_root,
            list.len(),
        ),
{
    lemma_root_index_same(list, more, mast_root, list.len());
}

proof fn lemma_root_index_same(
    list: Seq<ProcedureEntry>,
    more: ProcedureEntry,
    mast_root: Word,
    k: nat,
)
    requires
        k <= list.len(),
    ensures
        root_index(list.push(more), mast_root, k) == root_index(list, mast_root, k),
    decreases k,
{
    if k > 0 {
        lemma_root_index_same(list, more, mast_root, (k - 1) as nat);
    }
}

/// A procedure that was inserted is found by its index, and inserting it again changes nothing.
pub proof fn law_inserted_procedure_is_found(
    list: Seq<ProcedureEntry>,
    gid: GlobalItemIndex,
    procedure: Procedure,
    stored: Procedure,
)
    requires
        verdict(list, gid, procedure) is New,
        stored.mast_root == procedure.mast_root,
    ensures
        ({
            let after = list.push(ProcedureEntry { gid, procedure: stored });
            &&& procedure_index(after, gid, after.len()) == Some(list.len())
            &&& verdict(after, gid, procedure) is Known
        }),
{
    let entry = ProcedureEntry { gid, procedure: stored };
    lemma_procedure_index_same(list, entry, gid, list.len());
}

proof fn lemma_procedure_index_same(
    list: Seq<ProcedureEntry>,
    more: ProcedureEntry,
    gid: GlobalItemIndex,
    k: nat,
)
    requires
        k <= list.len(),
    ensures
        procedure_index(list.push(more), gid, k) == procedure_index(list, gid, k),
    decreases k,
{
    if k > 0 {
        lemma_procedure_index_same(list, more, gid, (k - 1) as nat);
    }
}

// INLINED FUNCTIONS AND MESSAGES
// ================================================================================================

/// The function of an inlined call that was registered before, among the first `k`.
pub open spec fn inline_index(list: Seq<InlineFunction>, key: InlineFunction, k: nat) -> Option<
    u32,
>
    decreases k,
{
    if k == 0 {
        None
    } else {
        match inline_index(list, key, (k - 1) as nat) {
            Some(i) => Some(i),
            None => if list[k - 1] == (InlineFunction {
                function_idx: list[k - 1].function_idx,
                ..key
            }) {
                Some(list[k - 1].function_idx)
            } else {
                None
            },
        }
    }
}

/// Table indices name an inlined function.
pub open spec fn names_inline(
    tables: DebugTablesModel,
    key: InlineFunction,
    name: Seq<char>,
    linkage_name: Option<Seq<char>>,
    declaration: FileLineCol,
) -> bool {
    &&& is_name(tables.section, key.name_idx, name)
    &&& match linkage_name {
        Some(text) => key.linkage_name_idx matches Some(l) && is_name(tables.section, l, text),
        None => key.linkage_name_idx is None,
    }
    &&& is_file(tables, key.file_idx, declaration.uri@)
    &&& key.line == declaration.line
    &&& key.column == declaration.column
}

/// The function of debug information for an inlined function.
pub open spec fn inline_function(key: InlineFunction) -> FunctionInfo {
    FunctionInfo {
        source_node: None,
        name_idx: key.name_idx,
        linkage_name_idx: key.linkage_name_idx,
        file_idx: key.file_idx,
        line: key.line,
        column: key.column,
        type_idx: None,
        mast_root: Word::zero_spec(),
    }
}

/// An inlined function is registered: under the index that it had, or as a new function.
pub open spec fn inline_registered(
    before: MastForestBuilder,
    after: MastForestBuilder,
    key: InlineFunction,
) -> bool {
    let list = before.registry.inline_functions@;
    let functions = before@.graph.functions;
    match inline_index(list, key, list.len()) {
        Some(i) => {
            &&& key.function_idx == i
            &&& after@ == (BuilderModel { tables: after@.tables, ..before@ })
            &&& after.registry.inline_functions == before.registry.inline_functions
        },
        None => {
            &&& key.function_idx == functions.len()
            &&& after@ == (BuilderModel {
                graph: GraphModel {
                    functions: functions.push(inline_function(key)),
                    ..before@.graph
                },
                tables: after@.tables,
                ..before@
            })
            &&& after.registry.inline_functions@ == list.push(key)
        },
    }
}

/// Adds what an inlined function is called to the tables.
fn name_inline(
    tables: &mut DebugTables,
    name: String,
    linkage_name: Option<String>,
    declaration: &FileLineCol,
) -> (res: Result<InlineFunction, DebugTypeError>)
    ensures
        tables_grown(old(tables)@, final(tables)@),
        match res {
            Ok(key) => names_inline(
                final(tables)@,
                key,
                name@,
                crate::types::name_model(linkage_name),
                *declaration,
            ) && final(tables)@ == named_tables(
                old(tables)@,
                declaration.uri@,
                name@,
                crate::types::name_model(linkage_name),
            ),
            Err(e) => e == DebugTypeError::TableFull && tables_crowded(old(tables)@, 3),
        },
{
    let file_idx: u32 = match tables.add_file(declaration.uri.clone()) {
        Ok(idx) => idx,
        Err(e) => {
            return Err(e);
        },
    };
    let name_idx: u32 = match tables.add_string(name) {
        Ok(idx) => idx,
        Err(e) => {
            return Err(e);
        },
    };
    let linkage_name_idx: Option<u32> = match linkage_name {
        None => None,
        Some(text) => match tables.add_string(text) {
            Ok(idx) => Some(idx),
            Err(e) => {
                return Err(e);
            },
        },
    };
    Ok(
        InlineFunction {
            name_idx,
            linkage_name_idx,
            file_idx,
            line: declaration.line,
            column: declaration.column,
            function_idx: 0,
        },
    )
}

impl MastForestBuilder {
    fn find_inline(&self, key: InlineFunction) -> (idx: Option<u32>)
        ensures
            idx == inline_index(
                self.registry.inline_functions@,
                key,
                self.registry.inline_functions@.len(),
            ),
    {
        let list = &self.registry.inline_functions;
        let mut found: Option<u32> = None;
        let mut i: usize = 0;
        while i < list.len()
            invariant
                i <= list@.len(),
                found == inline_index(list@, key, i as nat),
            decreases list@.len() - i,
        {
            if found.is_none() {
                let mut same = key;
                same.function_idx = list[i].function_idx;
                if list[i] == same {
                    found = Some(list[i].function_idx);
                }
            }
            i += 1;
        }
        found
    }

    /// The function for inlined calls of a source-level function: each function is registered once.
    pub fn register_inline_function(
        &mut self,
        name: String,
        linkage_name: Option<String>,
        declaration: &FileLineCol,
    ) -> (res: Result<u32, DebugTypeError>)
        requires
            old(self)@.wf(),
            old(self).registry.wf(),
        ensures
            final(self)@.wf(),
            final(self).registry.wf(),
            final(self).registry.advice_map == old(self).registry.advice_map,
            final(self).registry.procedures == old(self).registry.procedures,
            extends(old(self)@, final(self)@),
            match res {
                Ok(idx) => exists|key: InlineFunction|
                    #[trigger] names_inline(
                        final(self)@.tables,
                        key,
                        name@,
                        crate::types::name_model(linkage_name),
                        *declaration,
                    ) && key.function_idx == idx && final(self)@.tables == named_tables(
                        old(self)@.tables,
                        declaration.uri@,
                        name@,
                        crate::types::name_model(linkage_name),
                    ) && inline_registered(
                        *old(self),
                        *final(self),
                        key,
                    ),
                Err(e) => {
                    &&& e == DebugTypeError::TableFull
                    &&& final(self)@ == (BuilderModel {
                        tables: final(self)@.tables,
                        ..old(self)@
                    })
                    &&& final(self).registry.inline_functions
                        == old(self).registry.inline_functions
                    &&& tables_crowded(old(self)@.tables, 3) || old(self)@.graph.functions.len()
                        > u32::MAX
                },
            },
    {
        let mut key = match name_inline(
            &mut self.registry.tables,
            name,
            linkage_name,
            declaration,
        ) {
            Ok(key) => key,
            Err(e) => {
                proof {
                    lemma_tables_extend(old(self)@, self@);
                }
                return Err(e);
            },
        };
        let ghost list = self.registry.inline_functions@;
        let ghost b = self@;
        proof {
            lemma_tables_extend(old(self)@, b);
        }
        match self.find_inline(key) {
            Some(idx) => {
                proof {
                    lemma_inline_index(list, key, idx, list.len());
                }
                key.function_idx = idx;
                assert(names_inline(
                    self.registry.tables@,
                    key,
                    name@,
                    crate::types::name_model(linkage_name),
                    *declaration,
                ));
                assert(inline_registered(*old(self), *self, key));
                Ok(idx)
            },
            None => {
                if self.graph.functions.len() > u32::MAX as usize {
                    return Err(DebugTypeError::TableFull);
                }
                let idx: u32 = self.graph.functions.len() as u32;
                proof {
                    lemma_inline_index(list, key, idx, list.len());
                }
                key.function_idx = idx;
                self.graph.add_function(
                    FunctionInfo {
                        source_node: None,
                        name_idx: key.name_idx,
                        linkage_name_idx: key.linkage_name_idx,
                        file_idx: key.file_idx,
                        line: key.line,
                        column: key.column,
                        type_idx: None,
                        mast_root: Word::default(),
                    },
                );
                self.registry.inline_functions.push(key);
                proof {
                    lemma_occurrence_extends(b, self@);
                    lemma_entries_kept(b, self@);
                    lemma_extends_refl(b);
                    assert(extends(b, self@));
                    lemma_extends_trans(old(self)@, b, self@);
                }
                assert(names_inline(
                    self.registry.tables@,
                    key,
                    name@,
                    crate::types::name_model(linkage_name),
                    *declaration,
                ));
                assert(inline_registered(*old(self), *self, key));
                Ok(idx)
            },
        }
    }

    /// Gives an error code its message; the first message of a code stays.
    pub fn register_error(&mut self, err_code: Felt, msg: String) -> (res: Result<
        (),
        DebugTypeError,
    >)
        requires
            old(self).registry.wf(),
        ensures
            final(self).registry.wf(),
            same_procedures(old(self).registry, final(self).registry),
            extends(old(self)@, final(self)@),
            old(self)@.wf() ==> final(self)@.wf(),
            match res {
                Ok(_) => final(self)@ == (BuilderModel {
                    tables: with_message(old(self)@.tables, err_code.value, msg@),
                    ..old(self)@
                }) && message_fits(old(self)@.tables, err_code.value, msg@),
                Err(e) => {
                    let before = old(self)@.tables;
                    &&& e == DebugTypeError::TableFull
                    &&& final(self)@ == old(self)@
                    &&& crate::registry::message_of(
                        before.errors,
                        err_code.value,
                        before.errors.len(),
                    ) is None
                    &&& before.section.strings.len() > u32::MAX
                },
            },
    {
        let res = self.registry.tables.add_error_message(err_code.value, msg);
        proof {
            lemma_tables_extend(old(self)@, self@);
        }
        res
    }
}

/// The error messages of a package, by their codes.
pub open spec fn package_messages(tables: DebugTablesModel) -> Seq<(u64, Seq<char>)> {
    Seq::new(
        tables.errors.len(),
        |i: int| (tables.errors[i].0, tables.section.strings[tables.errors[i].1 as int]),
    )
}

/// The error messages of the first `k` packages, in order. One without debug information has none.
pub open spec fn library_messages(packages: Seq<Option<PackageDebugInfo>>, k: nat) -> Seq<
    (u64, Seq<char>),
>
    decreases k,
{
    if k == 0 {
        Seq::empty()
    } else {
        library_messages(packages, (k - 1) as nat) + match packages[k - 1] {
            Some(package) => package_messages(package@.tables),
            None => Seq::empty(),
        }
    }
}

/// Messages of packages refer to names.
pub open spec fn library_messages_ok(packages: Seq<Option<PackageDebugInfo>>) -> bool {
    forall|i: int|
        0 <= i < packages.len() ==> ((#[trigger] packages[i]) matches Some(package)
            ==> messages_ok(package@.tables))
}

/// Tables with the first `k` of some messages: the first message of a code stays.
pub open spec fn tables_with_messages(rows: Seq<(u64, Seq<char>)>, k: nat) -> DebugTablesModel
    decreases k,
{
    if k == 0 {
        no_tables()
    } else {
        with_message(tables_with_messages(rows, (k - 1) as nat), rows[k - 1].0, rows[k - 1].1)
    }
}

pub open spec fn message_models(rows: Seq<(u64, String)>) -> Seq<(u64, Seq<char>)> {
    Seq::new(rows.len(), |i: int| (rows[i].0, rows[i].1@))
}

/// Adds the error messages of a package to others.
fn add_package_messages(rows: &mut Vec<(u64, String)>, tables: &DebugTables)
    requires
        messages_ok(tables@),
    ensures
        message_models(final(rows)@) == message_models(old(rows)@) + package_messages(tables@),
{
    let ghost earlier = message_models(rows@);
    let ghost own = package_messages(tables@);
    let mut i: usize = 0;
    assert(message_models(rows@) =~= earlier + own.take(0));
    while i < tables.errors.len()
        invariant
            i <= tables.errors@.len() == own.len(),
            messages_ok(tables@),
            own == package_messages(tables@),
            message_models(rows@) == earlier + own.take(i as int),
        decreases tables.errors@.len() - i,
    {
        let (code, name) = tables.errors[i];
        assert(tables@.errors[i as int].1 < tables@.section.strings.len());
        let text = tables.section.strings[name as usize].clone();
        let ghost shown = text@;
        let ghost was = message_models(rows@);
        rows.push((code, text));
        assert(own[i as int] == (code, shown));
        assert(message_models(rows@) =~= was.push((code, shown)));
        assert(message_models(rows@) =~= earlier + own.take(i + 1));
        i += 1;
    }
    assert(own.take(i as int) =~= own);
}

/// The error messages of packages, in order.
fn collect_messages(packages: &Vec<Option<PackageDebugInfo>>) -> (rows: Vec<(u64, String)>)
    requires
        library_messages_ok(packages@),
    ensures
        message_models(rows@) == library_messages(packages@, packages@.len()),
{
    let mut rows: Vec<(u64, String)> = Vec::new();
    let mut p: usize = 0;
    assert(message_models(rows@) =~= Seq::empty());
    while p < packages.len()
        invariant
            p <= packages@.len(),
            library_messages_ok(packages@),
            message_models(rows@) == library_messages(packages@, p as nat),
        decreases packages@.len() - p,
    {
        let ghost earlier = message_models(rows@);
        assert(earlier + Seq::<(u64, Seq<char>)>::empty() =~= earlier);
        if let Some(package) = &packages[p] {
            add_package_messages(&mut rows, &package.tables);
        }
        p += 1;
    }
    rows
}

/// Messages after registering the first `k` rows: the first message of a code stays.
pub open spec fn first_message(rows: Seq<(u64, Seq<char>)>, code: u64, k: nat) -> Option<Seq<char>>
    decreases k,
{
    if k == 0 {
        None
    } else {
        match first_message(rows, code, (k - 1) as nat) {
            Some(text) => Some(text),
            None => if rows[k - 1].0 == code {
                Some(rows[k - 1].1)
            } else {
                None
            },
        }
    }
}

/// The message of a code in tables, if it has one.
pub open spec fn message_text(tables: DebugTablesModel, code: u64) -> Option<Seq<char>> {
    match crate::registry::message_of(tables.errors, code, tables.errors.len()) {
        Some(name) => Some(tables.section.strings[name as int]),
        None => None,
    }
}

/// Messages refer to names.
pub open spec fn messages_ok(tables: DebugTablesModel) -> bool {
    forall|i: int|
        0 <= i < tables.errors.len() ==> (#[trigger] tables.errors[i]).1
            < tables.section.strings.len()
}

/// A builder that holds the advice and the messages of libraries, and nothing else.
pub open spec fn starts_with(
    builder: MastForestBuilder,
    libraries: crate::static_import::StaticLibraries,
) -> bool {
    let infos = libraries.debug_infos@;
    let messages = library_messages(infos, infos.len());
    &&& is_fresh(builder)
    &&& builder.registry.advice_map@ == libraries.merged.advice_map@
    &&& builder@.tables == tables_with_messages(messages, messages.len())
    &&& builder@.tables.section.types.len() == 0
    &&& builder@.tables.files.len() == 0
    &&& builder@.tables.locations.len() == 0
    &&& messages_ok(builder@.tables)
    &&& forall|code: u64| #[trigger]
        message_text(builder@.tables, code) == first_message(messages, code, messages.len())
}

impl MastForestBuilder {
    /// A builder for a forest that links libraries statically: it starts with their advice, and
    /// with the messages of all of them, also of those of which nothing is linked. Their tables are
    /// imported when something of them is linked.
    pub fn new_with_static_libraries(libraries: &crate::static_import::StaticLibraries) -> (res:
        Result<MastForestBuilder, DebugTypeError>)
        requires
            libraries.wf(),
            libraries.merged.advice_map.wf(),
            library_messages_ok(libraries.debug_infos@),
        ensures
            ({
                let infos = libraries.debug_infos@;
                let messages = library_messages(infos, infos.len());
                match res {
                    Ok(builder) => {
                        &&& builder@.wf()
                        &&& builder.registry.wf()
                        &&& starts_with(builder, *libraries)
                    },
                    Err(e) => e == DebugTypeError::TableFull && messages.len() > u32::MAX,
                }
            }),
    {
        let mut builder = MastForestBuilder::new(libraries.merged.advice_map.copy());
        let messages = collect_messages(&libraries.debug_infos);
        let ghost all = library_messages(libraries.debug_infos@, libraries.debug_infos@.len());
        let n: usize = messages.len();
        let mut i: usize = 0;
        while i < n
            invariant
                i <= n == messages@.len() == all.len(),
                all == message_models(messages@),
                all == library_messages(libraries.debug_infos@, libraries.debug_infos@.len()),
                builder@.wf(),
                is_fresh(builder),
                builder.registry.wf(),
                builder.registry.advice_map@ == libraries.merged.advice_map@,
                builder@.tables == tables_with_messages(all, i as nat),
                messages_ok(builder@.tables),
                builder@.tables.section.types.len() == 0,
                builder@.tables.files.len() == 0,
                builder@.tables.locations.len() == 0,
                builder@.tables.section.strings.len() <= i,
                forall|code: u64| #[trigger]
                    message_text(builder@.tables, code) == first_message(all, code, i as nat),
            decreases n - i,
        {
            let ghost before = builder@.tables;
            let ghost was = builder@;
            let code: u64 = messages[i].0;
            let text = messages[i].1.clone();
            let ghost shown = text@;
            assert(all[i as int] == (code, shown));
            match builder.registry.tables.add_error_message(code, text) {
                Ok(_) => {},
                Err(e) => {
                    return Err(e);
                },
            }
            proof {
                let after = builder@.tables;
                lemma_tables_extend(was, builder@);
                assert forall|c: u64| #[trigger] message_text(after, c) == first_message(
                    all,
                    c,
                    (i + 1) as nat,
                ) by {
                    assert(message_text(before, c) == first_message(all, c, i as nat));
                    assert(message_text(before, code) == first_message(
                        all,
                        code,
                        i as nat,
                    ));
                    lemma_message_added(before, after, code, shown, c);
                }
                lemma_messages_ok(before, after, code, shown);
            }
            i += 1;
        }
        Ok(builder)
    }
}

/// A message was added, unless its code had one.
pub open spec fn message_added(
    before: DebugTablesModel,
    after: DebugTablesModel,
    code: u64,
    text: Seq<char>,
) -> bool {
    after == with_message(before, code, text) && message_fits(before, code, text)
}

proof fn lemma_message_valid(errors: Seq<(u64, u32)>, code: u64, k: nat, n: nat)
    requires
        k <= errors.len(),
        forall|i: int| 0 <= i < errors.len() ==> (#[trigger] errors[i]).1 < n,
    ensures
        crate::registry::message_of(errors, code, k) matches Some(m) ==> m < n,
    decreases k,
{
    if k > 0 {
        lemma_message_valid(errors, code, (k - 1) as nat, n);
    }
}

/// The message of a code stays when names are added.
pub proof fn lemma_message_text_stays(before: DebugTablesModel, after: DebugTablesModel, code: u64)
    requires
        messages_ok(before),
        tables_grown(before, after),
        after.errors == before.errors,
    ensures
        message_text(after, code) == message_text(before, code),
        messages_ok(after),
{
    lemma_message_valid(
        before.errors,
        code,
        before.errors.len(),
        before.section.strings.len(),
    );
    assert forall|i: int| 0 <= i < after.errors.len() implies (#[trigger] after.errors[i]).1
        < after.section.strings.len() by {
        assert(before.errors[i].1 < before.section.strings.len());
    }
}

pub proof fn lemma_message_added(
    before: DebugTablesModel,
    after: DebugTablesModel,
    code: u64,
    text: Seq<char>,
    c: u64,
)
    requires
        messages_ok(before),
        message_added(before, after, code, text),
    ensures
        message_text(after, c) == match message_text(before, c) {
            Some(shown) => Some(shown),
            None => if c == code {
                Some(text)
            } else {
                None
            },
        },
{
    crate::debug_types::lemma_with_name(before.section.strings, text);
    lemma_message_valid(before.errors, c, before.errors.len(), before.section.strings.len());
    if crate::registry::message_of(before.errors, code, before.errors.len()) is None {
        let more = after.errors.last();
        crate::registry::lemma_message_stays(before.errors, more, c, before.errors.len());
    }
}

pub proof fn lemma_messages_ok(
    before: DebugTablesModel,
    after: DebugTablesModel,
    code: u64,
    text: Seq<char>,
)
    requires
        messages_ok(before),
        message_added(before, after, code, text),
    ensures
        messages_ok(after),
{
    crate::debug_types::lemma_with_name(before.section.strings, text);
    assert forall|i: int| 0 <= i < after.errors.len() implies (#[trigger] after.errors[i]).1
        < after.section.strings.len() by {
        if i < before.errors.len() {
            assert(before.errors[i].1 < before.section.strings.len());
        }
    }
}

/// Functions are compared without their index.
proof fn lemma_inline_index(list: Seq<InlineFunction>, key: InlineFunction, idx: u32, k: nat)
    ensures
        inline_index(list, InlineFunction { function_idx: idx, ..key }, k) == inline_index(
            list,
            key,
            k,
        ),
    decreases k,
{
    if k > 0 {
        lemma_inline_index(list, key, idx, (k - 1) as nat);
    }
}

// ADVICE
// ================================================================================================

/// A map has values under a key.
pub open spec fn holds(entries: AdviceModel, key: Word, values: Seq<Felt>) -> bool {
    exists|i: int| 0 <= i < entries.len() && #[trigger] entries[i] == (key, values)
}

/// A map has other values under a key.
pub open spec fn differs(entries: AdviceModel, key: Word, values: Seq<Felt>) -> bool {
    exists|i: int|
        0 <= i < entries.len() && (#[trigger] entries[i]).0 == key && entries[i].1 != values
}

/// The first of the first `k` entries of another map under whose key a map has other values.
pub open spec fn advice_conflict(entries: AdviceModel, other: AdviceModel, k: nat) -> Option<Word>
    decreases k,
{
    if k == 0 {
        None
    } else {
        match advice_conflict(entries, other, (k - 1) as nat) {
            Some(key) => Some(key),
            None => if differs(entries, other[k - 1].0, other[k - 1].1) {
                Some(other[k - 1].0)
            } else {
                None
            },
        }
    }
}

/// A map with the first `k` entries of another.
pub open spec fn merged_advice(entries: AdviceModel, other: AdviceModel, k: nat) -> AdviceModel
    decreases k,
{
    if k == 0 {
        entries
    } else {
        inserted(
            merged_advice(entries, other, (k - 1) as nat),
            other[k - 1].0,
            other[k - 1].1,
        )
    }
}

fn same_values(a: &Vec<Felt>, b: &Vec<Felt>) -> (res: bool)
    ensures
        res == (a@ == b@),
{
    if a.len() != b.len() {
        return false;
    }
    let mut i: usize = 0;
    while i < a.len()
        invariant
            i <= a@.len() == b@.len(),
            forall|k: int| 0 <= k < i ==> a@[k] == b@[k],
        decreases a@.len() - i,
    {
        if a[i] != b[i] {
            return false;
        }
        i += 1;
    }
    assert(a@ =~= b@);
    true
}

proof fn lemma_conflict_stays(entries: AdviceModel, other: AdviceModel, k: nat, n: nat)
    requires
        k <= n,
        advice_conflict(entries, other, k) is Some,
    ensures
        advice_conflict(entries, other, n) == advice_conflict(entries, other, k),
    decreases n - k,
{
    if k < n {
        lemma_conflict_stays(entries, other, k, (n - 1) as nat);
    }
}

impl AdviceMap {
    /// Takes over the entries of another map. A map that has other values under a key is refused,
    /// with the first such key, and then nothing is taken over.
    pub fn merge(&mut self, other: &AdviceMap) -> (res: Result<(), Word>)
        requires
            old(self).wf(),
            other.wf(),
        ensures
            final(self).wf(),
            match advice_conflict(old(self)@, other@, other@.len()) {
                Some(key) => res == Err::<(), Word>(key) && final(self)@ == old(self)@,
                None => res is Ok && final(self)@ == merged_advice(
                    old(self)@,
                    other@,
                    other@.len(),
                ),
            },
    {
        let ghost before = self@;
        let n: usize = other.entries.len();
        let mut i: usize = 0;
        while i < n
            invariant
                i <= n == other.entries@.len() == other@.len(),
                self@ == before,
                self.wf(),
                old(self)@ == before,
                other.wf(),
                advice_conflict(before, other@, i as nat) is None,
            decreases n - i,
        {
            let entry = &other.entries[i];
            assert(other@[i as int] == (entry.key, entry.values@));
            if let Some(values) = self.get(&entry.key) {
                if !same_values(values, &entry.values) {
                    proof {
                        let q = choose|q: int|
                            0 <= q < before.len() && #[trigger] before[q] == (entry.key, values@);
                        assert(before[q].0 == entry.key && before[q].1 != entry.values@);
                        assert(differs(before, entry.key, entry.values@));
                        lemma_conflict_stays(before, other@, (i + 1) as nat, n as nat);
                    }
                    return Err(entry.key);
                }
                proof {
                    lemma_no_difference(before, entry.key, entry.values@);
                }
            }
            i += 1;
        }
        let mut i: usize = 0;
        while i < n
            invariant
                i <= n == other.entries@.len() == other@.len(),
                self@ == merged_advice(before, other@, i as nat),
                self.wf(),
                other.wf(),
            decreases n - i,
        {
            let entry = &other.entries[i];
            assert(other@[i as int] == (entry.key, entry.values@));
            self.insert(entry.key, crate::debug_info::copy_vec(&entry.values));
            i += 1;
        }
        Ok(())
    }
}

/// A map in order has at most one entry under a key.
proof fn lemma_no_difference(entries: AdviceModel, key: Word, values: Seq<Felt>)
    requires
        sorted(entries),
        holds(entries, key, values),
    ensures
        !differs(entries, key, values),
{
    let q = choose|q: int| 0 <= q < entries.len() && #[trigger] entries[q] == (key, values);
    if differs(entries, key, values) {
        let p = choose|p: int|
            0 <= p < entries.len() && (#[trigger] entries[p]).0 == key && entries[p].1 != values;
        if p < q {
            assert(entries[p].0.lt_spec(entries[q].0));
        } else {
            assert(entries[q].0.lt_spec(entries[p].0));
        }
        crate::felt::law_word_order(key, key, key);
    }
}

impl MastForestBuilder {
    /// Takes over the entries of an advice map. If values differ under a key, nothing is taken
    /// over.
    pub fn merge_advice_map(&mut self, other: &AdviceMap) -> (res: Result<(), Word>)
        requires
            old(self).registry.wf(),
            other.wf(),
        ensures
            final(self)@ == old(self)@,
            final(self).registry.wf(),
            final(self).registry.tables == old(self).registry.tables,
            final(self).registry.procedures == old(self).registry.procedures,
            final(self).registry.inline_functions == old(self).registry.inline_functions,
            ({
                let before = old(self).registry.advice_map@;
                let after = final(self).registry.advice_map@;
                match advice_conflict(before, other@, other@.len()) {
                    Some(key) => res == Err::<(), Word>(key) && after == before,
                    None => res is Ok && after == merged_advice(before, other@, other@.len()),
                }
            }),
    {
        self.registry.advice_map.merge(other)
    }
}

/// What a map holds after an insertion.
proof fn lemma_inserted_holds(
    entries: AdviceModel,
    key: Word,
    values: Seq<Felt>,
    k: Word,
    v: Seq<Felt>,
)
    requires
        sorted(entries),
    ensures
        sorted(inserted(entries, key, values)),
        holds(inserted(entries, key, values), k, v) <==> (if k == key {
            v == values
        } else {
            holds(entries, k, v)
        }),
{
    let after = inserted(entries, key, values);
    let at = rank(entries, key, entries.len()) as int;
    crate::forest::lemma_inserted_sorted(entries, key, values);
    assert(after[at] == (key, values));
    if holds(entries, k, v) && k != key {
        let q = choose|q: int| 0 <= q < entries.len() && #[trigger] entries[q] == (k, v);
        let p = if after.len() == entries.len() || q < at {
            q
        } else {
            q + 1
        };
        assert(after[p] == (k, v));
    }
    if holds(after, k, v) {
        let p = choose|p: int| 0 <= p < after.len() && #[trigger] after[p] == (k, v);
        if p != at {
            if k == key {
                if p < at {
                    assert(after[p].0.lt_spec(after[at].0));
                } else {
                    assert(after[at].0.lt_spec(after[p].0));
                }
                crate::felt::law_word_order(key, key, key);
            } else {
                let q = if after.len() == entries.len() || p < at {
                    p
                } else {
                    p - 1
                };
                assert(entries[q] == (k, v));
            }
        }
    }
}

/// A merged map holds what either map holds, in order of the keys.
pub proof fn law_merged_advice(
    entries: AdviceModel,
    other: AdviceModel,
    k: Word,
    v: Seq<Felt>,
)
    requires
        sorted(entries),
        sorted(other),
        advice_conflict(entries, other, other.len()) is None,
    ensures
        holds(merged_advice(entries, other, other.len()), k, v) <==> holds(entries, k, v) || holds(
            other,
            k,
            v,
        ),
        sorted(merged_advice(entries, other, other.len())),
{
    lemma_merged_upto(entries, other, k, v, other.len());
    if holds(other, k, v) {
        let i = choose|i: int| 0 <= i < other.len() && #[trigger] other[i] == (k, v);
        assert(held_upto(other, k, v, other.len()));
    }
}

/// One of the first `n` entries.
pub open spec fn held_upto(other: AdviceModel, k: Word, v: Seq<Felt>, n: nat) -> bool {
    exists|i: int| 0 <= i < n && #[trigger] other[i] == (k, v)
}

proof fn lemma_merged_upto(
    entries: AdviceModel,
    other: AdviceModel,
    k: Word,
    v: Seq<Felt>,
    n: nat,
)
    requires
        n <= other.len(),
        sorted(entries),
        sorted(other),
        advice_conflict(entries, other, n) is None,
    ensures
        sorted(merged_advice(entries, other, n)),
        holds(merged_advice(entries, other, n), k, v) <==> holds(entries, k, v) || held_upto(
            other,
            k,
            v,
            n,
        ),
    decreases n,
{
    if n > 0 {
        let (key, values) = other[n - 1];
        lemma_merged_upto(entries, other, k, v, (n - 1) as nat);
        lemma_inserted_holds(
            merged_advice(entries, other, (n - 1) as nat),
            key,
            values,
            k,
            v,
        );
        if k == key {
            if holds(entries, k, v) {
                let q = choose|q: int| 0 <= q < entries.len() && #[trigger] entries[q] == (k, v);
                if v != values {
                    assert(entries[q].0 == key && entries[q].1 != values);
                    assert(differs(entries, key, values));
                }
            }
            if held_upto(other, k, v, n) {
                let i = choose|i: int| 0 <= i < n && #[trigger] other[i] == (k, v);
                if i < n - 1 {
                    assert(other[i].0.lt_spec(other[n - 1].0));
                    crate::felt::law_word_order(key, key, key);
                }
            }
            if v == values {
                assert(other[n - 1] == (k, v));
            }
        } else {
            if held_upto(other, k, v, n) {
                let i = choose|i: int| 0 <= i < n && #[trigger] other[i] == (k, v);
                assert(i < n - 1);
            }
        }
    }
}

/// Two procedures with the same code can both be there unless both have locals and not equally
/// many; and the order in which they come does not matter.
pub proof fn law_same_code_same_locals(
    a: ProcedureEntry,
    b: ProcedureEntry,
    rest: Seq<ProcedureEntry>,
)
    requires
        a.gid != b.gid,
        a.procedure.mast_root == b.procedure.mast_root,
        source_name(a.procedure.path@, a.procedure.attributes) is Ok,
        source_name(b.procedure.path@, b.procedure.attributes) is Ok,
        forall|i: int|
            0 <= i < rest.len() ==> (#[trigger] rest[i]).gid != a.gid && rest[i].gid != b.gid
                && rest[i].procedure.mast_root != a.procedure.mast_root,
    ensures
        verdict(rest.push(a), b.gid, b.procedure) == verdict(rest.push(b), a.gid, a.procedure),
        verdict(rest.push(a), b.gid, b.procedure) == Verdict::New <==> a.procedure.num_locals == 0
            || b.procedure.num_locals == 0 || a.procedure.num_locals == b.procedure.num_locals,
        verdict(rest.push(a), b.gid, b.procedure) is Known <==> false,
{
    lemma_none_of(rest, a, b.gid, a.procedure.mast_root, rest.len());
    lemma_none_of(rest, b, a.gid, a.procedure.mast_root, rest.len());
}

proof fn lemma_none_of(
    rest: Seq<ProcedureEntry>,
    last: ProcedureEntry,
    gid: GlobalItemIndex,
    root: Word,
    k: nat,
)
    requires
        k <= rest.len(),
        forall|i: int|
            0 <= i < rest.len() ==> (#[trigger] rest[i]).gid != gid
                && rest[i].procedure.mast_root != root,
    ensures
        procedure_index(rest.push(last), gid, k) is None,
        root_index(rest.push(last), root, k) is None,
    decreases k,
{
    if k > 0 {
        lemma_none_of(rest, last, gid, root, (k - 1) as nat);
        assert(rest.push(last)[k - 1] == rest[k - 1]);
    }
}

/// A procedure that is there already is refused if and only if it comes with other code.
pub proof fn law_known_procedures_keep_their_code(
    list: Seq<ProcedureEntry>,
    i: int,
    procedure: Procedure,
)
    requires
        0 <= i < list.len(),
        forall|j: int| 0 <= j < i ==> (#[trigger] list[j]).gid != list[i].gid,
    ensures
        verdict(list, list[i].gid, procedure) == if procedure.mast_root
            == list[i].procedure.mast_root {
            Verdict::Known
        } else {
            Verdict::Refused(ProcedureError::DifferentRoots)
        },
{
    lemma_first_of(list, i, list.len());
}

proof fn lemma_first_of(list: Seq<ProcedureEntry>, i: int, k: nat)
    requires
        k <= list.len(),
        0 <= i < list.len(),
        forall|j: int| 0 <= j < i ==> (#[trigger] list[j]).gid != list[i].gid,
    ensures
        procedure_index(list, list[i].gid, k) == if i < k {
            Some(i as nat)
        } else {
            None::<nat>
        },
    decreases k,
{
    if k > 0 {
        lemma_first_of(list, i, (k - 1) as nat);
    }
}

/// The occurrence of a procedure whose place is known is that of its body, inside of a call frame of
/// the procedure that covers all of it; the occurrence of any other is that of its body.
pub proof fn law_bodies_are_framed(body: SourceModel, function: u32, location: Option<FileLineCol>)
    ensures
        ({
            let occurrence = body_occurrence(body, function, location);
            let added: nat = if location is Some {
                1
            } else {
                0
            };
            &&& occurrence.exec_node == body.exec_node
            &&& occurrence.children == body.children
            &&& occurrence.op_start == body.op_start
            &&& occurrence.op_end == body.op_end
            &&& occurrence.asm_ops == body.asm_ops
            &&& occurrence.debug_vars == body.debug_vars
            &&& occurrence.inline_calls == body.inline_calls
            &&& occurrence.call_frames.skip(added as int) == body.call_frames
            &&& occurrence.call_frames.len() == body.call_frames.len() + added
            &&& location is Some ==> {
                let frame = occurrence.call_frames[0];
                &&& frame.function_idx == function
                &&& frame.op_start == body.op_start
                &&& frame.op_end == body.op_end
                &&& frame.inherited_inline_calls == 0
            }
        }),
{
    let occurrence = body_occurrence(body, function, location);
    if location is Some {
        assert(occurrence.call_frames.skip(1) =~= body.call_frames);
    } else {
        assert(occurrence.call_frames.skip(0) =~= body.call_frames);
    }
}

/// The debug information of a procedure holds its path: as its linkage name if it has a source name,
/// which then is what it is shown as, else as the name that it is shown as.
pub proof fn law_functions_hold_their_path(
    tables: DebugTablesModel,
    function: FunctionInfo,
    procedure: Procedure,
    location: FileLineCol,
    source: u32,
)
    requires
        describes(tables, function, procedure, location, source),
    ensures
        match function.linkage_name_idx {
            None => is_name(tables.section, function.name_idx, procedure.path@.text()) && !(
            source_name(procedure.path@, procedure.attributes) matches Ok(Some(_))),
            Some(l) => is_name(tables.section, l, procedure.path@.text()) && (source_name(
                procedure.path@,
                procedure.attributes,
            ) matches Ok(Some(path)) && is_name(tables.section, function.name_idx, path.text())),
        },
        function.mast_root == procedure.mast_root,
        function.source_node == Some(source),
        is_file(tables, function.file_idx, location.uri@),
        function.line == location.line,
        function.column == location.column,
        function.type_idx is Some <==> procedure.signature is Some,
{
}

/// A function that was inlined before is found again, by all that tells it from others; one that
/// differs in anything is not.
pub proof fn law_inlined_functions_are_told_apart(
    list: Seq<InlineFunction>,
    key: InlineFunction,
    k: nat,
)
    requires
        k <= list.len(),
    ensures
        match inline_index(list, key, k) {
            Some(idx) => exists|i: int|
                0 <= i < k && (#[trigger] list[i]).function_idx == idx && list[i].name_idx
                    == key.name_idx && list[i].linkage_name_idx == key.linkage_name_idx
                    && list[i].file_idx == key.file_idx && list[i].line == key.line
                    && list[i].column == key.column,
            None => forall|i: int|
                0 <= i < k ==> (#[trigger] list[i]).name_idx != key.name_idx
                    || list[i].linkage_name_idx != key.linkage_name_idx || list[i].file_idx
                    != key.file_idx || list[i].line != key.line || list[i].column != key.column,
        },
    decreases k,
{
    if k > 0 {
        law_inlined_functions_are_told_apart(list, key, (k - 1) as nat);
        if inline_index(list, key, (k - 1) as nat) is None && inline_index(list, key, k) is Some {
            assert(list[k - 1].function_idx == inline_index(list, key, k)->0);
        }
    }
}

/// The message of an error code is the one that was given first.
pub proof fn law_first_messages_count(rows: Seq<(u64, Seq<char>)>, code: u64, k: nat)
    requires
        k <= rows.len(),
    ensures
        match first_message(rows, code, k) {
            Some(text) => exists|i: int|
                0 <= i < k && #[trigger] rows[i] == (code, text) && forall|j: int|
                    0 <= j < i ==> (#[trigger] rows[j]).0 != code,
            None => forall|i: int| 0 <= i < k ==> (#[trigger] rows[i]).0 != code,
        },
    decreases k,
{
    if k > 0 {
        law_first_messages_count(rows, code, (k - 1) as nat);
        if first_message(rows, code, (k - 1) as nat) is None && first_message(rows, code, k) is Some {
            assert(rows[k - 1] == (code, first_message(rows, code, k)->0));
        }
    }
}

/// The messages of libraries come in the order of the libraries, those of each in the order in which
/// it gives them.
pub proof fn law_library_messages_come_in_order(
    packages: Seq<Option<PackageDebugInfo>>,
    i: int,
    k: nat,
)
    requires
        0 <= i < k <= packages.len(),
    ensures
        packages[i] matches Some(package) ==> {
            let before = library_messages(packages, i as nat);
            let own = package_messages(package@.tables);
            library_messages(packages, k).subrange(
                before.len() as int,
                (before.len() + own.len()) as int,
            ) == own
        },
        library_messages(packages, i as nat).len() <= library_messages(packages, k).len(),
        packages[i] matches Some(package) ==> library_messages(packages, i as nat).len()
            + package_messages(package@.tables).len() <= library_messages(packages, k).len(),
    decreases k,
{
    let last = library_messages(packages, (k - 1) as nat);
    let all = library_messages(packages, k);
    if i < k - 1 {
        law_library_messages_come_in_order(packages, i, (k - 1) as nat);
    }
    if let Some(package) = packages[i] {
        let before = library_messages(packages, i as nat);
        let own = package_messages(package@.tables);
        let (from, to) = (before.len() as int, (before.len() + own.len()) as int);
        if i < k - 1 {
            assert(all.subrange(from, to) =~= last.subrange(from, to));
        } else {
            assert(all.subrange(from, to) =~= own);
        }
    }
}

proof fn lemma_inline_found(list: Seq<InlineFunction>, key: InlineFunction, k: nat)
    requires
        k <= list.len(),
    ensures
        inline_index(list.push(key), key, k) == inline_index(list, key, k),
    decreases k,
{
    if k > 0 {
        lemma_inline_found(list, key, (k - 1) as nat);
    }
}

/// An inlined function that was registered is found under the index that it was given, and was given
/// a new one only if it was not found before.
pub proof fn law_registered_inline_functions_are_found(
    before: MastForestBuilder,
    after: MastForestBuilder,
    key: InlineFunction,
)
    requires
        inline_registered(before, after, key),
    ensures
        inline_index(
            after.registry.inline_functions@,
            key,
            after.registry.inline_functions@.len(),
        ) == Some(key.function_idx),
        before@.graph.functions.len() <= after@.graph.functions.len()
            <= before@.graph.functions.len() + 1,
        after@.graph.functions.len() > before@.graph.functions.len() ==> inline_index(
            before.registry.inline_functions@,
            key,
            before.registry.inline_functions@.len(),
        ) is None && after@.graph.functions.last().source_node is None
            && after@.graph.functions.last().name_idx == key.name_idx
            && after@.graph.functions.last().linkage_name_idx == key.linkage_name_idx
            && after@.graph.functions.last().file_idx == key.file_idx
            && after@.graph.functions.last().line == key.line
            && after@.graph.functions.last().column == key.column,
        after@.nodes == before@.nodes,
        after@.graph.nodes == before@.graph.nodes,
{
    let list = before.registry.inline_functions@;
    if inline_index(list, key, list.len()) is None {
        lemma_inline_found(list, key, list.len());
        assert(list.push(key).last() == key);
    }
}

/// Two maps are at odds if and only if they give different values for a key, and the key that is told
/// is one for which they do.
pub proof fn law_advice_conflicts_are_real(entries: AdviceModel, other: AdviceModel, k: nat)
    requires
        k <= other.len(),
    ensures
        match advice_conflict(entries, other, k) {
            Some(key) => exists|i: int, j: int|
                0 <= i < entries.len() && 0 <= j < k && (#[trigger] entries[i]).0 == key && (
                #[trigger] other[j]).0 == key && entries[i].1 != other[j].1,
            None => forall|i: int, j: int|
                0 <= i < entries.len() && 0 <= j < k && (#[trigger] entries[i]).0 == (
                #[trigger] other[j]).0 ==> entries[i].1 == other[j].1,
        },
    decreases k,
{
    if k > 0 {
        law_advice_conflicts_are_real(entries, other, (k - 1) as nat);
        if advice_conflict(entries, other, (k - 1) as nat) is None {
            if differs(entries, other[k - 1].0, other[k - 1].1) {
                let i = choose|i: int|
                    0 <= i < entries.len() && (#[trigger] entries[i]).0 == other[k - 1].0
                        && entries[i].1 != other[k - 1].1;
                assert(entries[i].0 == other[k - 1].0 && entries[i].1 != other[k - 1].1);
            }
        }
    }
}

/// The code of a procedure that was inserted is among the roots, once; its occurrence is the last of
/// the roots of the source graph; and everything that was there stays.
pub proof fn law_inserted_procedures_are_roots(
    b: BuilderModel,
    after: BuilderModel,
    procedure: Procedure,
    location: Option<FileLineCol>,
)
    requires
        body_inserted(b, after, procedure, location),
        b.roots.no_duplicates(),
        b.graph.nodes.len() < u32::MAX,
        procedure.body_source_ref.0 < b.graph.nodes.len(),
    ensures
        after.roots.contains(procedure.body_node_ref),
        after.roots.no_duplicates(),
        after.roots.take(b.roots.len() as int) == b.roots,
        after.graph.roots.len() == b.graph.roots.len() + 1,
        after.graph.roots.take(b.graph.roots.len() as int) == b.graph.roots,
        after.graph.roots.last() == b.graph.nodes.len(),
        after.graph.nodes.take(b.graph.nodes.len() as int) == b.graph.nodes,
        after.graph.nodes.last().exec_node
            == b.graph.nodes[procedure.body_source_ref.0 as int].exec_node,
        after.nodes == b.nodes,
{
    let root = procedure.body_node_ref;
    if !b.roots.contains(root) {
        assert(after.roots[b.roots.len() as int] == root);
    }
    assert(after.roots.take(b.roots.len() as int) =~= b.roots);
    assert(after.graph.roots.take(b.graph.roots.len() as int) =~= b.graph.roots);
    assert(after.graph.nodes.take(b.graph.nodes.len() as int) =~= b.graph.nodes);
}

} // verus!
