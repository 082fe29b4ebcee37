//! Assembling modules: compiling their procedures, and exporting their items.

use vstd::prelude::*;
use vstd::string::*;

use crate::body::{
    bodies_known, body_built, body_fault, body_ok, body_failed, error_explained,
    ops_ok, Assembler, CompileError, CompiledProcedure, Op,
};
use crate::builder::{
    digest_of_ref, extends, lemma_extends_refl, lemma_extends_trans, AssemblyOp, BuilderModel,
    MastForestBuilder,
};
use crate::debug_info::{copy_vec, DebugSourceInlineCall};
use crate::debug_var::FileLineCol;
use crate::felt::Word;
use crate::forest::AdviceMap;
use crate::operation::Operation;
use crate::path::{GlobalItemIndex, Path, SourceSpan, SymbolPath};
use crate::pending::{MastNodeRef, MastNodeUse, SourceNodeRef};
use crate::procedure::{
    AssemblerError, Attribute, AttributeSet, MetaExpr, Procedure, ProcedureContext,
    MAX_PROC_LOCALS,
};
use crate::procedures::{
    lemma_procedure_index, not_described, procedure_index, procedure_inserted, verdict, ProcedureError, Verdict,
};
use crate::linked_names::{keeps_imports, law_imports_stay_known};
use crate::registry::{same_procedures, ProcedureEntry};
use crate::debug_types::DebugTypeError;
use crate::source_graph::BuildError;
use crate::type_decl::{TypeDecl, Visibility};
use crate::type_expr::FunctionType;
use crate::types::{Signature, Type, TypeModel};

verus! {

#[derive(Clone, Copy, PartialEq, Eq, Structural, Debug)]
pub enum ModuleKind {
    Library,
    Executable,
    Kernel,
}

/// A procedure before it is compiled.
pub struct ProcedureSource {
    pub span: SourceSpan,
    pub attributes: AttributeSet,
    pub num_locals: u16,
    pub signature: Option<Signature>,
    /// The signature as it is written.
    pub declared: Option<FunctionType>,
    pub body: Vec<Op>,
    /// What the joins of the body belong to.
    pub begin: AssemblyOp,
    /// The items that the procedure reaches, itself among them, each before those that it invokes.
    pub reaches: Vec<GlobalItemIndex>,
    /// Where the procedure is, if that is known.
    pub location: Option<FileLineCol>,
    /// What sets the frame of an entry point up.
    pub frame_init: Vec<Operation>,
    /// What sets the frame of other procedures with locals up, and what takes it down.
    pub frame_start: Vec<Operation>,
    pub frame_end: Vec<Operation>,
}

/// What a constant evaluates to.
#[derive(Clone, PartialEq, Eq, Debug)]
pub enum ConstantValue {
    Int(u64),
    Word(Word),
    Text(String),
}

/// The contents of a [`ConstantValue`].
pub ghost enum ConstantModel {
    Int(u64),
    Word(Word),
    Text(Seq<char>),
}

impl ConstantValue {
    pub open spec fn view(&self) -> ConstantModel {
        match self {
            ConstantValue::Int(value) => ConstantModel::Int(*value),
            ConstantValue::Word(value) => ConstantModel::Word(*value),
            ConstantValue::Text(text) => ConstantModel::Text(text@),
        }
    }

    /// A copy of the value.
    pub fn copy(&self) -> (copy: ConstantValue)
        ensures
            copy@ == self@,
    {
        match self {
            ConstantValue::Int(value) => ConstantValue::Int(*value),
            ConstantValue::Word(value) => ConstantValue::Word(*value),
            ConstantValue::Text(text) => ConstantValue::Text(text.clone()),
        }
    }
}

/// An item of a library.
pub enum ItemInfo {
    Procedure {
        compiled: CompiledProcedure,
        signature: Option<Signature>,
        attributes: AttributeSet,
    },
    Constant { value: ConstantValue },
    Type { ty: Type },
}

/// An item of a module. Constants and types come with what they evaluate to.
pub enum SymbolItem {
    Compiled(ItemInfo),
    Procedure(ProcedureSource),
    Constant { value: ConstantValue },
    Type { decl: TypeDecl, ty: Type },
}

pub struct Symbol {
    pub name: String,
    pub visibility: Visibility,
    pub item: SymbolItem,
}

/// An import of an item, and what it leads to.
pub struct Import {
    pub local_name: String,
    pub visibility: Visibility,
    pub span: SourceSpan,
    pub is_item: bool,
    pub resolved: Option<GlobalItemIndex>,
}

pub struct SubmoduleDecl {
    pub name: String,
    pub visibility: Visibility,
}

pub struct Module {
    pub kind: ModuleKind,
    pub path: Path,
    pub symbols: Vec<Symbol>,
    pub imports: Vec<Import>,
    pub submodules: Vec<SubmoduleDecl>,
    pub advice_map: Option<AdviceMap>,
}

/// An item of the modules.
pub open spec fn has_item(modules: Seq<Module>, gid: GlobalItemIndex) -> bool {
    gid.module < modules.len() && gid.index < modules[gid.module as int].symbols@.len()
}

pub open spec fn symbol_at(modules: Seq<Module>, gid: GlobalItemIndex) -> Symbol {
    modules[gid.module as int].symbols@[gid.index as int]
}

/// The path of an item.
pub open spec fn item_path(modules: Seq<Module>, gid: GlobalItemIndex) -> SymbolPath {
    modules[gid.module as int].path@.join(symbol_at(modules, gid).name@)
}

/// The values in a procedure are field elements.
pub open spec fn source_ok(source: ProcedureSource) -> bool {
    &&& body_ok(source.body@)
    &&& ops_ok(source.frame_init@)
    &&& ops_ok(source.frame_start@)
    &&& ops_ok(source.frame_end@)
}

/// The values in the modules are field elements.
pub open spec fn modules_ok(modules: Seq<Module>) -> bool {
    forall|gid: GlobalItemIndex| #[trigger]
        has_item(modules, gid) ==> match symbol_at(modules, gid).item {
            SymbolItem::Procedure(source) => source_ok(source),
            SymbolItem::Compiled(ItemInfo::Procedure { compiled, signature: _, attributes: _ }) =>
                compiled.mast_root.wf(),
            _ => true,
        }
}

/// Why modules cannot be assembled.
#[derive(Clone, PartialEq, Eq, Debug)]
pub enum AssemblyError {
    Compile(CompileError),
    Procedure(ProcedureError),
    Limits(AssemblerError),
    /// An entry point has locals.
    EntrypointWithLocals,
    /// Two items are exported under one path.
    DuplicateExportPath { path: String },
    /// An import leads to no item.
    UnresolvedImport { span: SourceSpan },
    /// Advice under a key differs.
    AdviceConflict { key: Word },
    /// A procedure's code did not get into the forest.
    NotFinalized { node_ref: MastNodeRef },
    /// No procedure is the entry point.
    MissingEntrypoint,
}

// COPYING
// ================================================================================================

pub open spec fn same_expr(a: MetaExpr, b: MetaExpr) -> bool {
    match (a, b) {
        (MetaExpr::Ident(x), MetaExpr::Ident(y)) => x@ == y@,
        (MetaExpr::Text(x), MetaExpr::Text(y)) => x@ == y@,
        (MetaExpr::Int(x), MetaExpr::Int(y)) => x == y,
        _ => false,
    }
}

/// Attributes say the same.
pub open spec fn same_attribute(a: Attribute, b: Attribute) -> bool {
    &&& a.id() == b.id()
    &&& a.place() == b.place()
    &&& match (a, b) {
        (
            Attribute::Marker { span: _, name: _ },
            Attribute::Marker { span: _, name: _ },
        ) => true,
        (
            Attribute::List { span: _, name: _, items: x },
            Attribute::List { span: _, name: _, items: y },
        ) => x@.len() == y@.len() && forall|i: int|
            0 <= i < x@.len() ==> same_expr(#[trigger] x@[i], y@[i]),
        (
            Attribute::KeyValue { span: _, name: _, items: x },
            Attribute::KeyValue { span: _, name: _, items: y },
        ) => x@.len() == y@.len() && forall|i: int|
            0 <= i < x@.len() ==> (#[trigger] x@[i]).0@ == y@[i].0@ && same_expr(x@[i].1, y@[i].1),
        _ => false,
    }
}

pub open spec fn same_attributes(a: AttributeSet, b: AttributeSet) -> bool {
    &&& a.items@.len() == b.items@.len()
    &&& forall|i: int|
        0 <= i < a.items@.len() ==> same_attribute(#[trigger] a.items@[i], b.items@[i])
}

impl MetaExpr {
    fn copy(&self) -> (copy: MetaExpr)
        ensures
            same_expr(copy, *self),
    {
        match self {
            MetaExpr::Ident(text) => MetaExpr::Ident(text.clone()),
            MetaExpr::Text(text) => MetaExpr::Text(text.clone()),
            MetaExpr::Int(value) => MetaExpr::Int(*value),
        }
    }
}

impl Attribute {
    fn copy(&self) -> (copy: Attribute)
        ensures
            same_attribute(copy, *self),
    {
        match self {
            Attribute::Marker { span, name } => Attribute::Marker {
                span: *span,
                name: name.clone(),
            },
            Attribute::List { span, name, items } => {
                let mut copies: Vec<MetaExpr> = Vec::new();
                let mut i: usize = 0;
                while i < items.len()
                    invariant
                        i <= items@.len(),
                        copies@.len() == i,
                        forall|k: int| 0 <= k < i ==> same_expr(#[trigger] copies@[k], items@[k]),
                    decreases items@.len() - i,
                {
                    copies.push(items[i].copy());
                    i += 1;
                }
                Attribute::List { span: *span, name: name.clone(), items: copies }
            },
            Attribute::KeyValue { span, name, items } => {
                let mut copies: Vec<(String, MetaExpr)> = Vec::new();
                let mut i: usize = 0;
                while i < items.len()
                    invariant
                        i <= items@.len(),
                        copies@.len() == i,
                        forall|k: int|
                            0 <= k < i ==> (#[trigger] copies@[k]).0@ == items@[k].0@ && same_expr(
                                copies@[k].1,
                                items@[k].1,
                            ),
                    decreases items@.len() - i,
                {
                    copies.push((items[i].0.clone(), items[i].1.copy()));
                    i += 1;
                }
                Attribute::KeyValue { span: *span, name: name.clone(), items: copies }
            },
        }
    }
}

impl AttributeSet {
    /// A copy of the attributes.
    pub fn copy(&self) -> (copy: AttributeSet)
        ensures
            same_attributes(copy, *self),
    {
        let mut items: Vec<Attribute> = Vec::new();
        let mut i: usize = 0;
        while i < self.items.len()
            invariant
                i <= self.items@.len(),
                items@.len() == i,
                forall|k: int| 0 <= k < i ==> same_attribute(#[trigger] items@[k], self.items@[k]),
            decreases self.items@.len() - i,
        {
            items.push(self.items[i].copy());
            i += 1;
        }
        AttributeSet { items }
    }
}

pub open spec fn signature_model(signature: Option<Signature>) -> Option<TypeModel> {
    match signature {
        Some(signature) => Some(signature@),
        None => None,
    }
}

pub(crate) fn copy_signature(signature: &Option<Signature>) -> (copy: Option<Signature>)
    ensures
        signature_model(copy) == signature_model(*signature),
{
    match signature {
        Some(signature) => Some(signature.copy()),
        None => None,
    }
}

fn copy_location(location: &Option<FileLineCol>) -> (copy: Option<FileLineCol>)
    ensures
        same_location(copy, *location),
{
    match location {
        Some(place) => Some(
            FileLineCol { uri: place.uri.clone(), line: place.line, column: place.column },
        ),
        None => None,
    }
}

pub open spec fn same_location(a: Option<FileLineCol>, b: Option<FileLineCol>) -> bool {
    match (a, b) {
        (Some(x), Some(y)) => x.uri@ == y.uri@ && x.line == y.line && x.column == y.column,
        (None, None) => true,
        _ => false,
    }
}

// COMPILING PROCEDURES
// ================================================================================================

/// What comes before the body of a procedure.
pub open spec fn prologue_of(source: ProcedureSource, is_entrypoint: bool) -> Seq<Operation> {
    if is_entrypoint {
        source.frame_init@
    } else if source.num_locals > 0 {
        source.frame_start@
    } else {
        Seq::empty()
    }
}

/// What comes behind the body of a procedure.
pub open spec fn epilogue_of(source: ProcedureSource, is_entrypoint: bool) -> Seq<Operation> {
    if !is_entrypoint && source.num_locals > 0 {
        source.frame_end@
    } else {
        Seq::empty()
    }
}

/// A procedure is the item of a module, compiled to a body.
pub open spec fn is_item_procedure(
    modules: Seq<Module>,
    gid: GlobalItemIndex,
    source: ProcedureSource,
    procedure: Procedure,
    after: BuilderModel,
    body: MastNodeUse,
) -> bool {
    let symbol = symbol_at(modules, gid);
    &&& procedure.span == source.span
    &&& procedure.path@ == item_path(modules, gid)
    &&& signature_model(procedure.signature) == signature_model(source.signature)
    &&& same_attributes(procedure.attributes, source.attributes)
    &&& procedure.visibility == symbol.visibility
    &&& procedure.is_syscall == (modules[gid.module as int].kind is Kernel
        && symbol.visibility is Public)
    &&& procedure.num_locals == source.num_locals
    &&& procedure.mast_root == digest_of_ref(after, body.node_ref)
    &&& procedure.body() == body
}

/// Why a procedure cannot be compiled.
pub open spec fn procedure_failed(
    a: Assembler,
    source: ProcedureSource,
    is_entrypoint: bool,
    procs: Seq<ProcedureEntry>,
    b: BuilderModel,
    after: BuilderModel,
    e: AssemblyError,
) -> bool {
    match e {
        AssemblyError::Limits(_) => source.num_locals > MAX_PROC_LOCALS,
        AssemblyError::EntrypointWithLocals => is_entrypoint && source.num_locals > 0,
        AssemblyError::Compile(e) => error_explained(
            e,
            body_fault(a, procs, source.body@, 0, source.body@.len()),
            body_failed(
                a,
                procs,
                b,
                after,
                source.body@,
                prologue_of(source, is_entrypoint),
                epilogue_of(source, is_entrypoint),
                Seq::empty(),
                source.begin,
                e,
            ),
        ),
        _ => false,
    }
}

impl Assembler {
    /// Compiles a procedure of a module.
    pub fn compile_procedure(
        &self,
        modules: &Vec<Module>,
        gid: GlobalItemIndex,
        is_entrypoint: bool,
        builder: &mut MastForestBuilder,
    ) -> (res: Result<Procedure, AssemblyError>)
        requires
            self.wf(),
            old(builder)@.wf(),
            bodies_known(old(builder)@, old(builder).registry.procedures@),
            has_item(modules@, gid),
            symbol_at(modules@, gid).item is Procedure,
            modules_ok(modules@),
        ensures
            same_procedures(old(builder).registry, final(builder).registry),
            ({
                let procs = old(builder).registry.procedures@;
                let source = symbol_at(modules@, gid).item->Procedure_0;
                let fault = body_fault(*self, procs, source.body@, 0, source.body@.len());
                match res {
                    Ok(procedure) => {
                        &&& source.num_locals <= MAX_PROC_LOCALS
                        &&& is_entrypoint ==> source.num_locals == 0
                        &&& fault is None
                        &&& final(builder)@.wf()
                        &&& extends(old(builder)@, final(builder)@)
                        &&& keeps_imports(self.libraries, old(builder)@, final(builder)@)
                        &&& final(builder)@.has_use(procedure.body())
                        &&& body_built(
                            *self,
                            procs,
                            old(builder)@,
                            final(builder)@,
                            source.body@,
                            prologue_of(source, is_entrypoint),
                            epilogue_of(source, is_entrypoint),
                            Seq::empty(),
                            source.begin,
                            procedure.body(),
                        )
                        &&& !is_entrypoint && source.num_locals > 0 ==> body_built(
                            *self,
                            procs,
                            old(builder)@,
                            final(builder)@,
                            source.body@,
                            source.frame_start@,
                            source.frame_end@,
                            Seq::empty(),
                            source.begin,
                            procedure.body(),
                        )
                        &&& !is_entrypoint && source.num_locals == 0 ==> body_built(
                            *self,
                            procs,
                            old(builder)@,
                            final(builder)@,
                            source.body@,
                            Seq::empty(),
                            Seq::empty(),
                            Seq::empty(),
                            source.begin,
                            procedure.body(),
                        )
                        &&& is_entrypoint ==> body_built(
                            *self,
                            procs,
                            old(builder)@,
                            final(builder)@,
                            source.body@,
                            source.frame_init@,
                            Seq::empty(),
                            Seq::empty(),
                            source.begin,
                            procedure.body(),
                        )
                        &&& is_item_procedure(
                            modules@,
                            gid,
                            source,
                            procedure,
                            final(builder)@,
                            procedure.body(),
                        )
                    },
                    Err(e) => procedure_failed(
                        *self,
                        source,
                        is_entrypoint,
                        procs,
                        old(builder)@,
                        final(builder)@,
                        e,
                    ),
                }
            }),
    {
        let module = &modules[gid.module as usize];
        let symbol = &module.symbols[gid.index as usize];
        let is_kernel = match module.kind {
            ModuleKind::Kernel => true,
            _ => false,
        };
        let source = match &symbol.item {
            SymbolItem::Procedure(source) => source,
            _ => {
                assert(false);
                return Err(AssemblyError::MissingEntrypoint);
            },
        };
        assert(has_item(modules@, gid));
        let context = ProcedureContext::new(
            gid,
            is_entrypoint,
            module.path.copy().join(symbol.name.clone()),
            symbol.visibility,
            copy_signature(&source.signature),
            is_kernel,
        ).with_span(source.span).with_attributes(source.attributes.copy());
        let context = match context.with_num_locals(source.num_locals) {
            Ok(context) => context,
            Err(e) => {
                return Err(AssemblyError::Limits(e));
            },
        };
        if is_entrypoint && source.num_locals > 0 {
            return Err(AssemblyError::EntrypointWithLocals);
        }
        let (prologue, epilogue): (Vec<Operation>, Vec<Operation>) = if is_entrypoint {
            (copy_vec(&source.frame_init), Vec::new())
        } else if source.num_locals > 0 {
            (copy_vec(&source.frame_start), copy_vec(&source.frame_end))
        } else {
            (Vec::new(), Vec::new())
        };
        proof {
            assert(prologue@ =~= prologue_of(*source, is_entrypoint));
            assert(epilogue@ =~= epilogue_of(*source, is_entrypoint));
        }
        let none: Vec<DebugSourceInlineCall> = Vec::new();
        assert(none@ =~= Seq::empty());
        match self.compile_body(
            builder,
            &source.body,
            prologue,
            epilogue,
            &none,
            source.begin,
            0,
        ) {
            Ok(u) => {
                let mast_root = builder.mast_root(u.node_ref);
                Ok(context.into_procedure(mast_root, u))
            },
            Err(e) => Err(AssemblyError::Compile(e)),
        }
    }
}

/// What a builder holds that compiling procedures changes.
pub ghost struct AssemblyState {
    pub b: BuilderModel,
    pub procs: Seq<ProcedureEntry>,
}

pub open spec fn state_of(builder: MastForestBuilder) -> AssemblyState {
    AssemblyState {
        b: builder@,
        procs: builder.registry.procedures@,
    }
}

/// A builder in which procedures can be compiled.
pub open spec fn builder_ok(builder: MastForestBuilder) -> bool {
    &&& builder@.wf()
    &&& builder.registry.wf()
    &&& bodies_known(builder@, builder.registry.procedures@)
    &&& bodies_rooted(builder@, builder.registry.procedures@)
}

/// The bodies of known procedures are roots.
pub open spec fn bodies_rooted(b: BuilderModel, procs: Seq<ProcedureEntry>) -> bool {
    forall|i: int|
        0 <= i < procs.len() ==> b.roots.contains((#[trigger] procs[i]).procedure.body_node_ref)
}

pub proof fn lemma_bodies_stay_rooted(
    b: BuilderModel,
    after: BuilderModel,
    procs: Seq<ProcedureEntry>,
)
    requires
        extends(b, after),
        bodies_rooted(b, procs),
    ensures
        bodies_rooted(after, procs),
{
    assert forall|i: int| 0 <= i < procs.len() implies after.roots.contains(
        (#[trigger] procs[i]).procedure.body_node_ref,
    ) by {
        let r = procs[i].procedure.body_node_ref;
        assert(b.roots.contains(r));
        let j = choose|j: int| 0 <= j < b.roots.len() && b.roots[j] == r;
        assert(after.roots[j] == b.roots[j]);
    }
}

/// One more procedure was inserted.
pub proof fn lemma_inserted_rooted(
    before: Seq<ProcedureEntry>,
    mid: BuilderModel,
    after: BuilderModel,
    procedure: Procedure,
    location: Option<FileLineCol>,
    entry: ProcedureEntry,
)
    requires
        bodies_rooted(mid, before),
        extends(mid, after),
        procedure_inserted(mid, after, procedure, location),
        entry.procedure.body_node_ref == procedure.body_node_ref,
    ensures
        bodies_rooted(after, before.push(entry)),
{
    lemma_bodies_stay_rooted(mid, after, before);
    let r = procedure.body_node_ref;
    let all = before.push(entry);
    assert(after.roots.contains(r)) by {
        if !mid.roots.contains(r) {
            assert(after.roots[mid.roots.len() as int] == r);
        }
    }
    assert forall|i: int| 0 <= i < all.len() implies after.roots.contains(
        (#[trigger] all[i]).procedure.body_node_ref,
    ) by {
        if i < before.len() {
            assert(all[i] == before[i]);
        }
    }
}

/// A procedure that was compiled is recorded under its index.
pub open spec fn procedure_recorded(
    s: AssemblyState,
    mid: BuilderModel,
    s2: AssemblyState,
    gid: GlobalItemIndex,
    location: Option<FileLineCol>,
    procedure: Procedure,
) -> bool {
    &&& procedure_inserted(mid, s2.b, procedure, location)
    &&& s2.procs == s.procs.push(
        ProcedureEntry {
            gid,
            procedure: Procedure {
                body_source_ref: SourceNodeRef(mid.graph.nodes.len() as u32),
                ..procedure
            },
        },
    )
}

pub ghost struct CompileSteps {
    pub mid: BuilderModel,
    pub procedure: Procedure,
}

/// An item was compiled, if it is a procedure that was not there.
pub open spec fn item_compiled(
    a: Assembler,
    modules: Seq<Module>,
    gid: GlobalItemIndex,
    is_entrypoint: bool,
    s: AssemblyState,
    s2: AssemblyState,
) -> bool {
    match procedure_index(s.procs, gid, s.procs.len()) {
        Some(_) => s2 == s,
        None => match symbol_at(modules, gid).item {
            SymbolItem::Procedure(source) => exists|w: CompileSteps| #[trigger]
                procedure_recorded(s, w.mid, s2, gid, source.location, w.procedure) && body_built(
                    a,
                    s.procs,
                    s.b,
                    w.mid,
                    source.body@,
                    prologue_of(source, is_entrypoint),
                    epilogue_of(source, is_entrypoint),
                    Seq::empty(),
                    source.begin,
                    w.procedure.body(),
                ) && is_item_procedure(
                    modules,
                    gid,
                    source,
                    w.procedure,
                    w.mid,
                    w.procedure.body(),
                ),
            _ => s2 == s,
        },
    }
}

/// The root of what is compiled. The root of a program is its entry point.
#[derive(Clone, Copy, PartialEq, Eq, Structural, Debug)]
pub struct SubgraphRoot {
    pub proc_id: GlobalItemIndex,
    pub is_program_entrypoint: bool,
}

impl SubgraphRoot {
    pub open spec fn is_entry(self, gid: GlobalItemIndex) -> bool {
        self.is_program_entrypoint && self.proc_id == gid
    }

    pub fn with_entrypoint(proc_id: GlobalItemIndex) -> (root: SubgraphRoot)
        ensures
            root == (SubgraphRoot { proc_id, is_program_entrypoint: true }),
    {
        SubgraphRoot { proc_id, is_program_entrypoint: true }
    }

    pub fn not_as_entrypoint(proc_id: GlobalItemIndex) -> (root: SubgraphRoot)
        ensures
            root == (SubgraphRoot { proc_id, is_program_entrypoint: false }),
    {
        SubgraphRoot { proc_id, is_program_entrypoint: false }
    }
}

/// The last `k` items of a list were compiled, from the end on.
pub open spec fn worklist_done(
    a: Assembler,
    modules: Seq<Module>,
    list: Seq<GlobalItemIndex>,
    root: SubgraphRoot,
    s: AssemblyState,
    s2: AssemblyState,
    k: nat,
) -> bool
    decreases k,
{
    if k == 0 {
        s2 == s
    } else {
        exists|mid: AssemblyState| #[trigger]
            item_compiled(
                a,
                modules,
                list[list.len() - k],
                root.is_entry(list[list.len() - k]),
                mid,
                s2,
            ) && worklist_done(a, modules, list, root, s, mid, (k - 1) as nat)
    }
}

/// A procedure is known.
pub open spec fn is_known(procs: Seq<ProcedureEntry>, gid: GlobalItemIndex) -> bool {
    procedure_index(procs, gid, procs.len()) is Some
}

proof fn lemma_known_stays(
    before: Seq<ProcedureEntry>,
    after: Seq<ProcedureEntry>,
    gid: GlobalItemIndex,
)
    requires
        crate::builder::is_prefix(before, after),
    ensures
        is_known(before, gid) ==> is_known(after, gid),
{
    lemma_procedure_index(before, gid, before.len());
    lemma_procedure_index(after, gid, after.len());
    if is_known(before, gid) {
        let i = procedure_index(before, gid, before.len())->0;
        assert(after[i as int].gid == gid);
    }
}

/// A procedure that was compiled at a place that reads the same was compiled at the place.
proof fn lemma_same_location(
    mid: BuilderModel,
    after: BuilderModel,
    procedure: Procedure,
    a: Option<FileLineCol>,
    b: Option<FileLineCol>,
)
    requires
        same_location(a, b),
        procedure_inserted(mid, after, procedure, a),
    ensures
        procedure_inserted(mid, after, procedure, b),
{
}

/// Why a procedure cannot be inserted: others are in the way, its name cannot be told, or there is
/// no room for it.
pub open spec fn insert_failed(
    b: BuilderModel,
    procs: Seq<ProcedureEntry>,
    gid: GlobalItemIndex,
    procedure: Procedure,
    has_location: bool,
    e: ProcedureError,
) -> bool {
    match verdict(procs, gid, procedure) {
        Verdict::Known => false,
        Verdict::Refused(refusal) => e == refusal,
        Verdict::New => match e {
            ProcedureError::Build(e) => e == BuildError::TooManySources && b.graph.nodes.len()
                >= u32::MAX,
            ProcedureError::Tables(e) => has_location && (not_described(b.tables, procedure, e) || e
                == DebugTypeError::TableFull && b.graph.functions.len() > u32::MAX),
            _ => false,
        },
    }
}

/// An item that was not there cannot be compiled: its body cannot, or what it was compiled to
/// cannot be inserted.
pub open spec fn item_failed(
    a: Assembler,
    modules: Seq<Module>,
    gid: GlobalItemIndex,
    is_entrypoint: bool,
    s: AssemblyState,
    w: CompileSteps,
    after: AssemblyState,
    e: AssemblyError,
) -> bool {
    &&& !is_known(s.procs, gid)
    &&& after.procs == s.procs
    &&& symbol_at(modules, gid).item matches SymbolItem::Procedure(source) && match e {
        AssemblyError::Procedure(e) => {
            &&& after.b == (BuilderModel { tables: after.b.tables, ..w.mid })
            &&& body_built(
                a,
                s.procs,
                s.b,
                w.mid,
                source.body@,
                prologue_of(source, is_entrypoint),
                epilogue_of(source, is_entrypoint),
                Seq::empty(),
                source.begin,
                w.procedure.body(),
            )
            &&& is_item_procedure(
                modules,
                gid,
                source,
                w.procedure,
                w.mid,
                w.procedure.body(),
            )
            &&& insert_failed(
                w.mid,
                s.procs,
                gid,
                w.procedure,
                source.location is Some,
                e,
            )
        },
        _ => procedure_failed(a, source, is_entrypoint, s.procs, s.b, after.b, e),
    }
}

/// Where working through a list stopped: behind its last `k` items.
pub ghost struct WorkStop {
    pub k: nat,
    pub mid: AssemblyState,
    pub w: CompileSteps,
}

/// The last items of a list were compiled, and the one before them cannot be.
pub open spec fn stopped_at(
    a: Assembler,
    modules: Seq<Module>,
    list: Seq<GlobalItemIndex>,
    root: SubgraphRoot,
    s: AssemblyState,
    stop: WorkStop,
    after: AssemblyState,
    e: AssemblyError,
) -> bool {
    &&& stop.k < list.len()
    &&& worklist_done(a, modules, list, root, s, stop.mid, stop.k)
    &&& item_failed(
        a,
        modules,
        list[list.len() - 1 - stop.k],
        root.is_entry(list[list.len() - 1 - stop.k]),
        stop.mid,
        stop.w,
        after,
        e,
    )
}

/// A list cannot be worked through: one of its items cannot be compiled.
#[verifier::opaque]
pub open spec fn worklist_failed(
    a: Assembler,
    modules: Seq<Module>,
    list: Seq<GlobalItemIndex>,
    root: SubgraphRoot,
    s: AssemblyState,
    after: AssemblyState,
    e: AssemblyError,
) -> bool {
    exists|stop: WorkStop| #[trigger] stopped_at(a, modules, list, root, s, stop, after, e)
}

/// An error of compiling is none of exporting.
pub proof fn lemma_failure_kind(
    a: Assembler,
    modules: Seq<Module>,
    list: Seq<GlobalItemIndex>,
    root: SubgraphRoot,
    s: AssemblyState,
    after: AssemblyState,
    e: AssemblyError,
)
    requires
        worklist_failed(a, modules, list, root, s, after, e),
    ensures
        e is Compile || e is Procedure || e is Limits || e is EntrypointWithLocals,
{
    reveal(worklist_failed);
}

impl Assembler {
    /// Compiles an item and inserts it, if it is a procedure that is not there.
    fn compile_item(
        &self,
        modules: &Vec<Module>,
        gid: GlobalItemIndex,
        is_entrypoint: bool,
        builder: &mut MastForestBuilder,
    ) -> (res: Result<(), AssemblyError>)
        requires
            self.wf(),
            builder_ok(*old(builder)),
            has_item(modules@, gid),
            modules_ok(modules@),
        ensures
            match res {
                Ok(_) => {
                    &&& builder_ok(*final(builder))
                    &&& final(builder).registry.advice_map == old(builder).registry.advice_map
                    &&& extends(old(builder)@, final(builder)@)
                    &&& keeps_imports(self.libraries, old(builder)@, final(builder)@)
                    &&& crate::builder::is_prefix(
                        old(builder).registry.procedures@,
                        final(builder).registry.procedures@,
                    )
                    &&& item_compiled(
                        *self,
                        modules@,
                        gid,
                        is_entrypoint,
                        state_of(*old(builder)),
                        state_of(*final(builder)),
                    )
                    &&& symbol_at(modules@, gid).item is Procedure ==> is_known(
                        final(builder).registry.procedures@,
                        gid,
                    )
                },
                Err(e) => exists|w: CompileSteps| #[trigger]
                    item_failed(
                        *self,
                        modules@,
                        gid,
                        is_entrypoint,
                        state_of(*old(builder)),
                        w,
                        state_of(*final(builder)),
                        e,
                    ),
            },
    {
        let ghost s = state_of(*builder);
        proof {
            lemma_extends_refl(builder@);
        }
        if builder.get_procedure(gid).is_some() {
            return Ok(());
        }
        let source = match &modules[gid.module as usize].symbols[gid.index as usize].item {
            SymbolItem::Procedure(source) => source,
            _ => {
                return Ok(());
            },
        };
        let procedure = match self.compile_procedure(modules, gid, is_entrypoint, builder) {
            Ok(procedure) => procedure,
            Err(e) => {
                proof {
                    assert(item_failed(
                        *self,
                        modules@,
                        gid,
                        is_entrypoint,
                        s,
                        arbitrary(),
                        state_of(*builder),
                        e,
                    ));
                }
                return Err(e);
            },
        };
        let ghost mid = builder@;
        let ghost compiled = procedure;
        proof {
            crate::body::lemma_bodies_stay(s.b, mid, s.procs);
            lemma_bodies_stay_rooted(s.b, mid, s.procs);
        }
        let location = copy_location(&source.location);
        let ghost place = location;
        match builder.insert_procedure(gid, procedure, location) {
            Ok(_) => {},
            Err(e) => {
                proof {
                    assert(item_failed(
                        *self,
                        modules@,
                        gid,
                        is_entrypoint,
                        s,
                        CompileSteps { mid, procedure: compiled },
                        state_of(*builder),
                        AssemblyError::Procedure(e),
                    ));
                }
                return Err(AssemblyError::Procedure(e));
            },
        }
        proof {
            lemma_extends_trans(s.b, mid, builder@);
            law_imports_stay_known(mid, builder@, self.libraries);
            lemma_same_location(
                mid,
                builder@,
                compiled,
                place,
                source.location,
            );
            let w = CompileSteps { mid, procedure: compiled };
            assert(procedure_recorded(
                s,
                w.mid,
                state_of(*builder),
                gid,
                source.location,
                w.procedure,
            ));
            let procs = builder.registry.procedures@;
            lemma_inserted_rooted(
                s.procs,
                mid,
                builder@,
                compiled,
                place,
                procs[s.procs.len() as int],
            );
            lemma_procedure_index(procs, gid, procs.len());
            assert(procs[s.procs.len() as int].gid == gid);
            assert forall|i: int| 0 <= i < procs.len() implies builder@.has_use(
                (#[trigger] procs[i]).procedure.body(),
            ) by {
                if i < s.procs.len() {
                    assert(mid.has_use(s.procs[i].procedure.body()));
                }
            }
        }
        Ok(())
    }

    /// Compiles the procedures of a list, from its end on, so that each one finds those that it
    /// invokes compiled. Procedures that are there are not compiled again.
    pub fn process_graph_worklist(
        &self,
        modules: &Vec<Module>,
        worklist: Vec<GlobalItemIndex>,
        root: SubgraphRoot,
        builder: &mut MastForestBuilder,
    ) -> (res: Result<(), AssemblyError>)
        requires
            self.wf(),
            builder_ok(*old(builder)),
            modules_ok(modules@),
            forall|i: int|
                0 <= i < worklist@.len() ==> has_item(modules@, #[trigger] worklist@[i]),
        ensures
            match res {
                Ok(_) => {
                    &&& builder_ok(*final(builder))
                    &&& final(builder).registry.advice_map == old(builder).registry.advice_map
                    &&& extends(old(builder)@, final(builder)@)
                    &&& keeps_imports(self.libraries, old(builder)@, final(builder)@)
                    &&& crate::builder::is_prefix(
                        old(builder).registry.procedures@,
                        final(builder).registry.procedures@,
                    )
                    &&& worklist_done(
                        *self,
                        modules@,
                        worklist@,
                        root,
                        state_of(*old(builder)),
                        state_of(*final(builder)),
                        worklist@.len(),
                    )
                    &&& forall|i: int|
                        0 <= i < worklist@.len() && symbol_at(
                            modules@,
                            #[trigger] worklist@[i],
                        ).item is Procedure ==> is_known(
                            final(builder).registry.procedures@,
                            worklist@[i],
                        )
                },
                Err(e) => worklist_failed(
                    *self,
                    modules@,
                    worklist@,
                    root,
                    state_of(*old(builder)),
                    state_of(*final(builder)),
                    e,
                ),
            },
    {
        let ghost s = state_of(*builder);
        let n: usize = worklist.len();
        let mut k: usize = 0;
        proof {
            lemma_extends_refl(builder@);
        }
        while k < n
            invariant
                k <= n == worklist@.len(),
                self.wf(),
                builder_ok(*builder),
                s == state_of(*old(builder)),
                s.b.wf(),
                builder.registry.advice_map == old(builder).registry.advice_map,
                modules_ok(modules@),
                forall|i: int|
                    0 <= i < worklist@.len() ==> has_item(modules@, #[trigger] worklist@[i]),
                extends(s.b, builder@),
                keeps_imports(self.libraries, s.b, builder@),
                crate::builder::is_prefix(s.procs, builder.registry.procedures@),
                worklist_done(
                    *self,
                    modules@,
                    worklist@,
                    root,
                    s,
                    state_of(*builder),
                    k as nat,
                ),
                forall|i: int|
                    n - k <= i < n && symbol_at(modules@, #[trigger] worklist@[i]).item is Procedure
                        ==> is_known(builder.registry.procedures@, worklist@[i]),
            decreases n - k,
        {
            let gid = worklist[n - 1 - k];
            let ghost mid = state_of(*builder);
            assert(has_item(modules@, worklist@[n - 1 - k]));
            let is_entrypoint = root.is_program_entrypoint && root.proc_id == gid;
            match self.compile_item(modules, gid, is_entrypoint, builder) {
                Ok(_) => {},
                Err(e) => {
                    proof {
                        reveal(worklist_failed);
                        let w = choose|w: CompileSteps| #[trigger]
                            item_failed(
                                *self,
                                modules@,
                                gid,
                                is_entrypoint,
                                mid,
                                w,
                                state_of(*builder),
                                e,
                            );
                        assert(worklist@[worklist@.len() - 1 - k] == gid);
                        assert(stopped_at(
                            *self,
                            modules@,
                            worklist@,
                            root,
                            s,
                            WorkStop { k: k as nat, mid, w },
                            state_of(*builder),
                            e,
                        ));
                    }
                    return Err(e);
                },
            }
            proof {
                lemma_extends_trans(s.b, mid.b, builder@);
                assert(worklist@[worklist@.len() - (k + 1)] == gid);
                let done = (k + 1) as nat;
                assert(worklist_done(
                    *self,
                    modules@,
                    worklist@,
                    root,
                    s,
                    mid,
                    (done - 1) as nat,
                ));
                assert(item_compiled(
                    *self,
                    modules@,
                    worklist@[worklist@.len() - done],
                    root.is_entry(worklist@[worklist@.len() - done]),
                    mid,
                    state_of(*builder),
                ));
                assert forall|i: int|
                    n - (k + 1) <= i < n && symbol_at(
                        modules@,
                        #[trigger] worklist@[i],
                    ).item is Procedure implies is_known(
                    builder.registry.procedures@,
                    worklist@[i],
                ) by {
                    lemma_known_stays(mid.procs, builder.registry.procedures@, worklist@[i]);
                }
            }
            k += 1;
        }
        Ok(())
    }
}

/// A procedure has the path, the visibility, the locals and the signature of its item. It can be
/// called by syscalls if and only if it is a public one of a kernel.
pub open spec fn is_of_item(modules: Seq<Module>, entry: ProcedureEntry) -> bool {
    let symbol = symbol_at(modules, entry.gid);
    let module = modules[entry.gid.module as int];
    &&& entry.procedure.path@.parent() == module.path@
    &&& entry.procedure.path@.components.last() == symbol.name@
    &&& entry.procedure.visibility == symbol.visibility
    &&& entry.procedure.is_syscall ==> module.kind is Kernel && symbol.visibility is Public
    &&& module.kind is Kernel && symbol.visibility is Public ==> entry.procedure.is_syscall
    &&& symbol.item matches SymbolItem::Procedure(source) && entry.procedure.num_locals
        == source.num_locals && signature_model(entry.procedure.signature) == signature_model(
        source.signature,
    )
}

/// Compiling what a procedure reaches compiles all of it, each procedure once: those that were
/// there stay as they were, whatever is added is on the list and was not there, and in the end
/// every procedure of the list is there.
pub proof fn law_worklists_are_compiled(
    a: Assembler,
    modules: Seq<Module>,
    list: Seq<GlobalItemIndex>,
    root: SubgraphRoot,
    s: AssemblyState,
    s2: AssemblyState,
    k: nat,
)
    requires
        k <= list.len(),
        worklist_done(a, modules, list, root, s, s2, k),
    ensures
        s.procs.len() <= s2.procs.len(),
        s2.procs.take(s.procs.len() as int) == s.procs,
        forall|i: int|
            s.procs.len() <= i < s2.procs.len() ==> list.contains((#[trigger] s2.procs[i]).gid)
                && !is_known(s.procs, s2.procs[i].gid) && is_of_item(modules, s2.procs[i]),
        forall|i: int|
            list.len() - k <= i < list.len() && symbol_at(modules, #[trigger] list[i]).item
                is Procedure ==> is_known(s2.procs, list[i]),
    decreases k,
{
    if k == 0 {
        assert(s2.procs.take(s.procs.len() as int) =~= s.procs);
    } else {
        let gid = list[list.len() - k];
        let mid = choose|mid: AssemblyState| #[trigger]
            item_compiled(a, modules, gid, root.is_entry(gid), mid, s2) && worklist_done(
                a,
                modules,
                list,
                root,
                s,
                mid,
                (k - 1) as nat,
            );
        law_worklists_are_compiled(a, modules, list, root, s, mid, (k - 1) as nat);
        assert forall|i: int| 0 <= i < mid.procs.len() implies s2.procs[i] == mid.procs[i] by {}
        assert(s2.procs.take(s.procs.len() as int) =~= mid.procs.take(s.procs.len() as int));
        assert forall|g: GlobalItemIndex| is_known(mid.procs, g) implies #[trigger] is_known(
            s2.procs,
            g,
        ) by {
            lemma_known_stays(mid.procs, s2.procs, g);
        }
        if !is_known(mid.procs, gid) && symbol_at(modules, gid).item is Procedure {
            assert(s2.procs.len() == mid.procs.len() + 1);
            assert(s2.procs.last().gid == gid);
            assert(is_known(s2.procs, gid));
            crate::path::law_joined_paths_lie_below(
                modules[gid.module as int].path@,
                symbol_at(modules, gid).name@,
            );
            assert(is_of_item(modules, s2.procs.last()));
            if is_known(s.procs, gid) {
                assert forall|i: int| 0 <= i < s.procs.len() implies #[trigger] s.procs[i]
                    == mid.procs[i] by {
                    assert(mid.procs.take(s.procs.len() as int)[i] == mid.procs[i]);
                }
                lemma_known_stays(s.procs, mid.procs, gid);
            }
            assert forall|i: int| s.procs.len() <= i < s2.procs.len() implies list.contains(
                (#[trigger] s2.procs[i]).gid,
            ) && !is_known(s.procs, s2.procs[i].gid) && is_of_item(modules, s2.procs[i]) by {
                if i < mid.procs.len() {
                    assert(s2.procs[i] == mid.procs[i]);
                }
            }
        }
    }
}

} // verus!
