//! Exporting the items of modules.

use vstd::prelude::*;
use vstd::string::*;

use crate::assembler::{
    builder_ok, has_item, insert_failed, is_known, lemma_failure_kind, modules_ok,
    same_attributes, signature_model, state_of, symbol_at, worklist_done, worklist_failed,
    AssemblyError, AssemblyState, CompileSteps, ConstantValue,
    Import, ItemInfo, Module, ModuleKind, SubgraphRoot, SymbolItem,
};
use crate::body::{
    lemma_bodies_stay, link_built, link_refused, Assembler, CompileError, CompiledProcedure, Target,
};
use crate::builder::{
    extends, is_prefix, lemma_extends_refl, lemma_extends_trans, BuilderModel, MastForestBuilder,
};
use crate::felt::Word;
use crate::path::{
    is_before, law_text_order_total, law_text_order_transitive, text_before, GlobalItemIndex, Path,
    SourceSpan, SymbolPath,
};
use crate::pending::{MastNodeRef, SourceNodeRef};
use crate::procedure::{AttributeSet, Procedure, ProcedureContext};
use crate::procedures::{lemma_procedure_index, procedure_index, ProcedureError};
use crate::linked_names::{keeps_imports, law_imports_stay_known};
use crate::registry::ProcedureEntry;
use crate::type_decl::Visibility;
use crate::type_expr::ordered;
use crate::types::{Signature, Type};

verus! {

/// A procedure that is exported, before its code is in a finished forest.
pub struct PendingProcedureExport {
    pub node_ref: MastNodeRef,
    pub source_ref: Option<SourceNodeRef>,
    pub digest: Word,
    pub path: Path,
    pub signature: Option<Signature>,
    pub attributes: AttributeSet,
}

/// An item that is exported, before the forest is finished.
pub enum PendingPackageExport {
    Procedure(PendingProcedureExport),
    Constant { path: Path, value: ConstantValue },
    Type { path: Path, ty: Type },
}

impl PendingPackageExport {
    pub open spec fn place(self) -> SymbolPath {
        match self {
            PendingPackageExport::Procedure(export) => export.path@,
            PendingPackageExport::Constant { path, value: _ } => path@,
            PendingPackageExport::Type { path, ty: _ } => path@,
        }
    }

    pub fn path(&self) -> (path: &Path)
        ensures
            path@ == self.place(),
    {
        match self {
            PendingPackageExport::Procedure(export) => &export.path,
            PendingPackageExport::Constant { path, value: _ } => path,
            PendingPackageExport::Type { path, ty: _ } => path,
        }
    }
}

/// The procedure with an index.
pub open spec fn entry_of(procs: Seq<ProcedureEntry>, gid: GlobalItemIndex) -> Procedure {
    procs[procedure_index(procs, gid, procs.len())->0 as int].procedure
}

/// An export of a procedure that is known.
pub open spec fn exports_entry(
    procs: Seq<ProcedureEntry>,
    gid: GlobalItemIndex,
    export: PendingProcedureExport,
) -> bool {
    &&& is_known(procs, gid)
    &&& export.digest == entry_of(procs, gid).mast_root
    &&& export.node_ref == entry_of(procs, gid).body_node_ref
    &&& export.source_ref == Some(entry_of(procs, gid).body_source_ref)
}

/// An export stands for an item: constants and types by their value, procedures by the body that is
/// known for them.
pub open spec fn export_ok(
    procs: Seq<ProcedureEntry>,
    item: SymbolItem,
    gid: GlobalItemIndex,
    path: SymbolPath,
    export: PendingPackageExport,
) -> bool {
    &&& export.place() == path
    &&& match item {
        SymbolItem::Compiled(ItemInfo::Procedure { compiled, signature, attributes }) => export
            matches PendingPackageExport::Procedure(e) && exports_entry(procs, gid, e) && e.digest
            == compiled.mast_root && same_attributes(e.attributes, attributes) && signature_model(
            e.signature,
        ) == signature_model(signature),
        SymbolItem::Procedure(source) => export matches PendingPackageExport::Procedure(e)
            && exports_entry(procs, gid, e) && same_attributes(e.attributes, source.attributes)
            && signature_model(e.signature) == signature_model(source.signature),
        SymbolItem::Compiled(ItemInfo::Constant { value }) => export matches
            PendingPackageExport::Constant { path: _, value: v } && v@ == value@,
        SymbolItem::Constant { value } => export matches PendingPackageExport::Constant {
            path: _,
            value: v,
        } && v@ == value@,
        SymbolItem::Compiled(ItemInfo::Type { ty }) => export matches PendingPackageExport::Type {
            path: _,
            ty: t,
        } && t@ == ty@,
        SymbolItem::Type { decl: _, ty } => export matches PendingPackageExport::Type {
            path: _,
            ty: t,
        } && t@ == ty@,
    }
}

proof fn lemma_entry_stays(
    before: Seq<ProcedureEntry>,
    after: Seq<ProcedureEntry>,
    gid: GlobalItemIndex,
    k: nat,
)
    requires
        is_prefix(before, after),
        k <= before.len(),
    ensures
        procedure_index(after, gid, k) == procedure_index(before, gid, k),
    decreases k,
{
    if k > 0 {
        lemma_entry_stays(before, after, gid, (k - 1) as nat);
    }
}

proof fn lemma_found_stays(list: Seq<ProcedureEntry>, gid: GlobalItemIndex, k: nat, n: nat)
    requires
        k <= n <= list.len(),
        procedure_index(list, gid, k) is Some,
    ensures
        procedure_index(list, gid, n) == procedure_index(list, gid, k),
    decreases n - k,
{
    if k < n {
        lemma_found_stays(list, gid, k, (n - 1) as nat);
    }
}

/// What an export stands for stays when more procedures are compiled.
proof fn lemma_export_stays(
    before: Seq<ProcedureEntry>,
    after: Seq<ProcedureEntry>,
    item: SymbolItem,
    gid: GlobalItemIndex,
    path: SymbolPath,
    export: PendingPackageExport,
)
    requires
        is_prefix(before, after),
        export_ok(before, item, gid, path, export),
    ensures
        export_ok(after, item, gid, path, export),
{
    lemma_entry_stays(before, after, gid, before.len());
    if is_known(before, gid) {
        lemma_found_stays(after, gid, before.len(), after.len());
        lemma_procedure_index(before, gid, before.len());
    }
}

/// The items that procedures reach are in the modules.
pub open spec fn reach_ok(modules: Seq<Module>) -> bool {
    forall|gid: GlobalItemIndex| #[trigger]
        has_item(modules, gid) ==> match symbol_at(modules, gid).item {
            SymbolItem::Procedure(source) => forall|i: int|
                0 <= i < source.reaches@.len() ==> has_item(modules, #[trigger] source.reaches@[i]),
            _ => true,
        }
}

/// A procedure of a library was linked and recorded, unless it was known.
pub open spec fn library_procedure_recorded(
    a: Assembler,
    s: AssemblyState,
    s2: AssemblyState,
    gid: GlobalItemIndex,
    compiled: CompiledProcedure,
    path: SymbolPath,
    is_kernel: bool,
    mid: BuilderModel,
    procedure: Procedure,
) -> bool {
    if is_known(s.procs, gid) {
        s2 == s && entry_of(s.procs, gid).mast_root == compiled.mast_root
    } else {
        &&& link_built(a, s.b, mid, compiled, procedure.body())
        &&& crate::assembler::procedure_recorded(s, mid, s2, gid, None, procedure)
        &&& procedure.path@ == path
        &&& procedure.mast_root == compiled.mast_root
        &&& procedure.visibility == Visibility::Public
        &&& procedure.is_syscall == is_kernel
        &&& procedure.num_locals == 0
    }
}

/// How the builder changed when an item was exported.
pub open spec fn exported_from(
    a: Assembler,
    modules: Seq<Module>,
    gid: GlobalItemIndex,
    path: SymbolPath,
    is_kernel: bool,
    s: AssemblyState,
    s2: AssemblyState,
) -> bool {
    match symbol_at(modules, gid).item {
        SymbolItem::Compiled(ItemInfo::Procedure { compiled, signature: _, attributes: _ }) =>
            exists|mid: BuilderModel, procedure: Procedure| #[trigger]
                library_procedure_recorded(
                    a,
                    s,
                    s2,
                    gid,
                    compiled,
                    path,
                    is_kernel,
                    mid,
                    procedure,
                ),
        SymbolItem::Procedure(source) => worklist_done(
            a,
            modules,
            source.reaches@,
            SubgraphRoot { proc_id: gid, is_program_entrypoint: false },
            s,
            s2,
            source.reaches@.len(),
        ),
        _ => s2 == s,
    }
}

/// Why a procedure of a library cannot be recorded: what is known by its index has another root, it
/// cannot be linked, or it cannot be inserted.
pub open spec fn library_failed(
    a: Assembler,
    s: AssemblyState,
    gid: GlobalItemIndex,
    compiled: CompiledProcedure,
    path: SymbolPath,
    attributes: AttributeSet,
    w: CompileSteps,
    after: AssemblyState,
    e: AssemblyError,
) -> bool {
    &&& after.procs == s.procs
    &&& match e {
        AssemblyError::Compile(CompileError::Link(e)) => !is_known(s.procs, gid) && link_refused(
            a,
            compiled,
            s.b,
            after.b,
            e,
        ),
        AssemblyError::Procedure(e) => if is_known(s.procs, gid) {
            e == ProcedureError::DifferentRoots && entry_of(s.procs, gid).mast_root
                != compiled.mast_root && after == s
        } else {
            &&& after.b == w.mid
            &&& link_built(a, s.b, w.mid, compiled, w.procedure.body())
            &&& w.procedure.path@ == path
            &&& w.procedure.mast_root == compiled.mast_root
            &&& w.procedure.num_locals == 0
            &&& same_attributes(w.procedure.attributes, attributes)
            &&& insert_failed(w.mid, s.procs, gid, w.procedure, false, e)
        },
        _ => false,
    }
}

/// A procedure and what it reaches cannot be compiled: one of the procedures that it reaches
/// cannot, or it is not among them.
pub open spec fn subgraph_failed(
    a: Assembler,
    modules: Seq<Module>,
    root: SubgraphRoot,
    s: AssemblyState,
    after: AssemblyState,
    e: AssemblyError,
) -> bool {
    let list = symbol_at(modules, root.proc_id).item->Procedure_0.reaches@;
    ||| worklist_failed(a, modules, list, root, s, after, e)
    ||| e == AssemblyError::Compile(CompileError::MissingProcedure { gid: root.proc_id })
        && worklist_done(a, modules, list, root, s, after, list.len()) && !list.contains(
        root.proc_id,
    ) && !is_known(after.procs, root.proc_id)
}

/// An item cannot be exported.
pub open spec fn export_failed(
    a: Assembler,
    modules: Seq<Module>,
    gid: GlobalItemIndex,
    path: SymbolPath,
    s: AssemblyState,
    after: AssemblyState,
    e: AssemblyError,
) -> bool {
    match symbol_at(modules, gid).item {
        SymbolItem::Compiled(ItemInfo::Procedure { compiled, signature: _, attributes }) =>
            exists|w: CompileSteps| #[trigger]
                library_failed(a, s, gid, compiled, path, attributes, w, after, e),
        SymbolItem::Procedure(_) => subgraph_failed(
            a,
            modules,
            SubgraphRoot { proc_id: gid, is_program_entrypoint: false },
            s,
            after,
            e,
        ),
        _ => false,
    }
}

/// An error of compiling is none of exporting.
pub proof fn lemma_subgraph_failure_kind(
    a: Assembler,
    modules: Seq<Module>,
    root: SubgraphRoot,
    s: AssemblyState,
    after: AssemblyState,
    e: AssemblyError,
)
    requires
        subgraph_failed(a, modules, root, s, after, e),
    ensures
        e is Compile || e is Procedure || e is Limits || e is EntrypointWithLocals,
{
    let list = symbol_at(modules, root.proc_id).item->Procedure_0.reaches@;
    if worklist_failed(a, modules, list, root, s, after, e) {
        lemma_failure_kind(a, modules, list, root, s, after, e);
    }
}

fn copy_gids(list: &Vec<GlobalItemIndex>) -> (copy: Vec<GlobalItemIndex>)
    ensures
        copy@ == list@,
{
    crate::debug_info::copy_vec(list)
}

impl Assembler {
    /// Compiles a procedure and everything that it reaches.
    pub fn compile_subgraph(
        &self,
        modules: &Vec<Module>,
        root: SubgraphRoot,
        builder: &mut MastForestBuilder,
    ) -> (res: Result<(), AssemblyError>)
        requires
            self.wf(),
            builder_ok(*old(builder)),
            modules_ok(modules@),
            reach_ok(modules@),
            has_item(modules@, root.proc_id),
            symbol_at(modules@, root.proc_id).item is Procedure,
        ensures
            match res {
                Ok(_) => {
                    let source = symbol_at(modules@, root.proc_id).item->Procedure_0;
                    &&& builder_ok(*final(builder))
                    &&& final(builder).registry.advice_map == old(builder).registry.advice_map
                    &&& extends(old(builder)@, final(builder)@)
                    &&& keeps_imports(self.libraries, old(builder)@, final(builder)@)
                    &&& is_prefix(
                        old(builder).registry.procedures@,
                        final(builder).registry.procedures@,
                    )
                    &&& is_known(final(builder).registry.procedures@, root.proc_id)
                    &&& worklist_done(
                        *self,
                        modules@,
                        source.reaches@,
                        root,
                        state_of(*old(builder)),
                        state_of(*final(builder)),
                        source.reaches@.len(),
                    )
                },
                Err(e) => subgraph_failed(
                    *self,
                    modules@,
                    root,
                    state_of(*old(builder)),
                    state_of(*final(builder)),
                    e,
                ),
            },
    {
        let gid = root.proc_id;
        assert(has_item(modules@, gid));
        match &modules[gid.module as usize].symbols[gid.index as usize].item {
            SymbolItem::Procedure(source) => {
                match self.process_graph_worklist(
                    modules,
                    copy_gids(&source.reaches),
                    root,
                    builder,
                ) {
                    Ok(_) => if builder.get_procedure(gid).is_some() {
                        Ok(())
                    } else {
                        proof {
                            let list = source.reaches@;
                            if list.contains(gid) {
                                let k = choose|k: int| 0 <= k < list.len() && list[k] == gid;
                                assert(symbol_at(modules@, list[k]).item is Procedure);
                            }
                        }
                        Err(AssemblyError::Compile(CompileError::MissingProcedure { gid }))
                    },
                    Err(e) => Err(e),
                }
            },
            _ => {
                assert(false);
                Err(AssemblyError::EntrypointWithLocals)
            },
        }
    }

    /// Links a procedure of a library and records it, unless it is known.
    fn record_library_procedure(
        &self,
        gid: GlobalItemIndex,
        compiled: CompiledProcedure,
        signature: &Option<Signature>,
        attributes: &AttributeSet,
        is_kernel: bool,
        path: &Path,
        builder: &mut MastForestBuilder,
    ) -> (res: Result<(), AssemblyError>)
        requires
            self.wf(),
            builder_ok(*old(builder)),
            compiled.mast_root.wf(),
            path@.components.len() > 0,
        ensures
            match res {
                Ok(_) => {
                    &&& builder_ok(*final(builder))
                    &&& final(builder).registry.advice_map == old(builder).registry.advice_map
                    &&& extends(old(builder)@, final(builder)@)
                    &&& keeps_imports(self.libraries, old(builder)@, final(builder)@)
                    &&& is_prefix(
                        old(builder).registry.procedures@,
                        final(builder).registry.procedures@,
                    )
                    &&& is_known(final(builder).registry.procedures@, gid)
                    &&& entry_of(final(builder).registry.procedures@, gid).mast_root
                        == compiled.mast_root
                    &&& exists|mid: BuilderModel, procedure: Procedure| #[trigger]
                        library_procedure_recorded(
                            *self,
                            state_of(*old(builder)),
                            state_of(*final(builder)),
                            gid,
                            compiled,
                            path@,
                            is_kernel,
                            mid,
                            procedure,
                        )
                },
                Err(e) => exists|w: CompileSteps| #[trigger]
                    library_failed(
                        *self,
                        state_of(*old(builder)),
                        gid,
                        compiled,
                        path@,
                        *attributes,
                        w,
                        state_of(*final(builder)),
                        e,
                    ),
            },
    {
        let ghost s = state_of(*builder);
        proof {
            lemma_extends_refl(builder@);
            lemma_procedure_index(s.procs, gid, s.procs.len());
        }
        let known = match builder.get_procedure(gid) {
            Some(procedure) => Some(procedure.mast_root()),
            None => None,
        };
        if let Some(mast_root) = known {
            if mast_root != compiled.mast_root {
                proof {
                    assert(library_failed(
                        *self,
                        s,
                        gid,
                        compiled,
                        path@,
                        *attributes,
                        arbitrary(),
                        state_of(*builder),
                        AssemblyError::Procedure(
                            crate::procedures::ProcedureError::DifferentRoots,
                        ),
                    ));
                }
                return Err(
                    AssemblyError::Procedure(crate::procedures::ProcedureError::DifferentRoots),
                );
            }
            assert(library_procedure_recorded(
                *self,
                s,
                s,
                gid,
                compiled,
                path@,
                is_kernel,
                s.b,
                entry_of(s.procs, gid),
            ));
            return Ok(());
        }
        let target = Target::Item { gid, compiled: Some(compiled) };
        let u = match self.resolve_target(builder, target, false, SourceSpan::unknown()) {
            Ok(u) => u,
            Err(e) => {
                proof {
                    assert(crate::body::target_fault(
                        self.kernel@,
                        s.procs,
                        target,
                        false,
                        SourceSpan::unknown_span(),
                    ) is None);
                    assert(library_failed(
                        *self,
                        s,
                        gid,
                        compiled,
                        path@,
                        *attributes,
                        arbitrary(),
                        state_of(*builder),
                        AssemblyError::Compile(e),
                    ));
                }
                return Err(AssemblyError::Compile(e));
            },
        };
        let ghost mid = builder@;
        proof {
            lemma_bodies_stay(s.b, mid, s.procs);
            crate::assembler::lemma_bodies_stay_rooted(s.b, mid, s.procs);
        }
        let context = ProcedureContext::new(
            gid,
            false,
            path.copy(),
            Visibility::Public,
            crate::assembler::copy_signature(signature),
            is_kernel,
        ).with_attributes(attributes.copy());
        let procedure = context.into_procedure(compiled.mast_root, u);
        let ghost recorded = procedure;
        match builder.insert_procedure(gid, procedure, None) {
            Ok(_) => {},
            Err(e) => {
                proof {
                    assert(library_failed(
                        *self,
                        s,
                        gid,
                        compiled,
                        path@,
                        *attributes,
                        CompileSteps { mid, procedure: recorded },
                        state_of(*builder),
                        AssemblyError::Procedure(e),
                    ));
                }
                return Err(AssemblyError::Procedure(e));
            },
        }
        proof {
            lemma_extends_trans(s.b, mid, builder@);
            law_imports_stay_known(mid, builder@, self.libraries);
            let procs = builder.registry.procedures@;
            crate::assembler::lemma_inserted_rooted(
                s.procs,
                mid,
                builder@,
                recorded,
                None,
                procs[s.procs.len() as int],
            );
            lemma_procedure_index(procs, gid, procs.len());
            assert(procs[s.procs.len() as int].gid == gid);
            let i = procedure_index(procs, gid, procs.len())->0;
            assert(i == s.procs.len()) by {
                if i < s.procs.len() {
                    assert(s.procs[i as int].gid == gid);
                }
            }
            assert(crate::assembler::procedure_recorded(
                s,
                mid,
                state_of(*builder),
                gid,
                None,
                recorded,
            ));
            assert(library_procedure_recorded(
                *self,
                s,
                state_of(*builder),
                gid,
                compiled,
                path@,
                is_kernel,
                mid,
                recorded,
            ));
            assert forall|i: int| 0 <= i < procs.len() implies builder@.has_use(
                (#[trigger] procs[i]).procedure.body(),
            ) by {
                if i < s.procs.len() {
                    assert(mid.has_use(s.procs[i].procedure.body()));
                }
            }
        }
        Ok(())
    }

    /// The export of a procedure that is known.
    fn export_entry(
        builder: &MastForestBuilder,
        gid: GlobalItemIndex,
        path: Path,
        signature: Option<Signature>,
        attributes: AttributeSet,
    ) -> (export: PendingPackageExport)
        requires
            is_known(builder.registry.procedures@, gid),
        ensures
            export matches PendingPackageExport::Procedure(e) && exports_entry(
                builder.registry.procedures@,
                gid,
                e,
            ) && e.path == path && e.signature == signature && e.attributes == attributes,
    {
        match builder.get_procedure(gid) {
            Some(procedure) => PendingPackageExport::Procedure(
                PendingProcedureExport {
                    node_ref: procedure.body_node_ref(),
                    source_ref: Some(procedure.body_source_ref()),
                    digest: procedure.mast_root(),
                    path,
                    signature,
                    attributes,
                },
            ),
            None => {
                assert(false);
                PendingPackageExport::Constant { path, value: ConstantValue::Int(0) }
            },
        }
    }

    /// Exports an item under a path. Procedures are compiled or linked for it.
    pub fn export_symbol(
        &self,
        modules: &Vec<Module>,
        gid: GlobalItemIndex,
        module_kind: ModuleKind,
        symbol_path: Path,
        builder: &mut MastForestBuilder,
    ) -> (res: Result<PendingPackageExport, AssemblyError>)
        requires
            self.wf(),
            builder_ok(*old(builder)),
            modules_ok(modules@),
            reach_ok(modules@),
            has_item(modules@, gid),
            symbol_path@.components.len() > 0,
        ensures
            match res {
                Ok(export) => {
                    &&& builder_ok(*final(builder))
                    &&& final(builder).registry.advice_map == old(builder).registry.advice_map
                    &&& extends(old(builder)@, final(builder)@)
                    &&& keeps_imports(self.libraries, old(builder)@, final(builder)@)
                    &&& is_prefix(
                        old(builder).registry.procedures@,
                        final(builder).registry.procedures@,
                    )
                    &&& export_ok(
                        final(builder).registry.procedures@,
                        symbol_at(modules@, gid).item,
                        gid,
                        symbol_path@,
                        export,
                    )
                    &&& exported_from(
                        *self,
                        modules@,
                        gid,
                        symbol_path@,
                        module_kind is Kernel,
                        state_of(*old(builder)),
                        state_of(*final(builder)),
                    )
                },
                Err(e) => export_failed(
                    *self,
                    modules@,
                    gid,
                    symbol_path@,
                    state_of(*old(builder)),
                    state_of(*final(builder)),
                    e,
                ),
            },
    {
        proof {
            lemma_extends_refl(builder@);
        }
        assert(has_item(modules@, gid));
        let is_kernel = match module_kind {
            ModuleKind::Kernel => true,
            _ => false,
        };
        match &modules[gid.module as usize].symbols[gid.index as usize].item {
            SymbolItem::Compiled(ItemInfo::Procedure { compiled, signature, attributes }) => {
                match self.record_library_procedure(
                    gid,
                    *compiled,
                    signature,
                    attributes,
                    is_kernel,
                    &symbol_path,
                    builder,
                ) {
                    Ok(_) => Ok(
                        Assembler::export_entry(
                            builder,
                            gid,
                            symbol_path,
                            crate::assembler::copy_signature(signature),
                            attributes.copy(),
                        ),
                    ),
                    Err(e) => Err(e),
                }
            },
            SymbolItem::Compiled(ItemInfo::Constant { value }) => Ok(
                PendingPackageExport::Constant { path: symbol_path, value: value.copy() },
            ),
            SymbolItem::Compiled(ItemInfo::Type { ty }) => Ok(
                PendingPackageExport::Type { path: symbol_path, ty: ty.copy() },
            ),
            SymbolItem::Procedure(source) => {
                match self.compile_subgraph(
                    modules,
                    SubgraphRoot::not_as_entrypoint(gid),
                    builder,
                ) {
                    Ok(_) => Ok(
                        Assembler::export_entry(
                            builder,
                            gid,
                            symbol_path,
                            crate::assembler::copy_signature(&source.signature),
                            source.attributes.copy(),
                        ),
                    ),
                    Err(e) => Err(e),
                }
            },
            SymbolItem::Constant { value } => Ok(
                PendingPackageExport::Constant { path: symbol_path, value: value.copy() },
            ),
            SymbolItem::Type { decl: _, ty } => Ok(
                PendingPackageExport::Type { path: symbol_path, ty: ty.copy() },
            ),
        }
    }

    /// Exports what an import leads to, under the import's path.
    pub fn export_import(
        &self,
        modules: &Vec<Module>,
        import: &Import,
        module_kind: ModuleKind,
        symbol_path: Path,
        builder: &mut MastForestBuilder,
    ) -> (res: Result<PendingPackageExport, AssemblyError>)
        requires
            self.wf(),
            builder_ok(*old(builder)),
            modules_ok(modules@),
            reach_ok(modules@),
            import.resolved matches Some(gid) ==> has_item(modules@, gid),
            symbol_path@.components.len() > 0,
        ensures
            import.resolved is None ==> res == Err::<PendingPackageExport, AssemblyError>(
                AssemblyError::UnresolvedImport { span: import.span },
            ),
            match res {
                Ok(export) => {
                    &&& import.resolved is Some
                    &&& builder_ok(*final(builder))
                    &&& final(builder).registry.advice_map == old(builder).registry.advice_map
                    &&& extends(old(builder)@, final(builder)@)
                    &&& keeps_imports(self.libraries, old(builder)@, final(builder)@)
                    &&& is_prefix(
                        old(builder).registry.procedures@,
                        final(builder).registry.procedures@,
                    )
                    &&& export_ok(
                        final(builder).registry.procedures@,
                        symbol_at(modules@, import.resolved->0).item,
                        import.resolved->0,
                        symbol_path@,
                        export,
                    )
                    &&& exported_from(
                        *self,
                        modules@,
                        import.resolved->0,
                        symbol_path@,
                        module_kind is Kernel,
                        state_of(*old(builder)),
                        state_of(*final(builder)),
                    )
                },
                Err(e) => match import.resolved {
                    Some(gid) => export_failed(
                        *self,
                        modules@,
                        gid,
                        symbol_path@,
                        state_of(*old(builder)),
                        state_of(*final(builder)),
                        e,
                    ),
                    None => *final(builder) == *old(builder),
                },
            },
    {
        match import.resolved {
            Some(gid) => self.export_symbol(modules, gid, module_kind, symbol_path, builder),
            None => Err(AssemblyError::UnresolvedImport { span: import.span }),
        }
    }
}

// LIBRARIES
// ================================================================================================

/// An item that a module offers: one of its own, or one that it imports.
pub ghost struct PublicItem {
    pub gid: GlobalItemIndex,
    pub path: SymbolPath,
    pub is_kernel: bool,
    /// The place of an import that leads to no item.
    pub lost: Option<SourceSpan>,
}

/// The public items among the first `k` symbols of module `m`.
pub open spec fn public_symbols(modules: Seq<Module>, m: u32, k: nat) -> Seq<PublicItem>
    decreases k,
{
    if k == 0 {
        Seq::empty()
    } else {
        let before = public_symbols(modules, m, (k - 1) as nat);
        let symbol = modules[m as int].symbols@[k - 1];
        if symbol.visibility is Public {
            before.push(
                PublicItem {
                    gid: GlobalItemIndex { module: m, index: (k - 1) as u32 },
                    path: modules[m as int].path@.join(symbol.name@),
                    is_kernel: modules[m as int].kind is Kernel,
                    lost: None,
                },
            )
        } else {
            before
        }
    }
}

/// The public items among the first `k` imports of module `m`.
pub open spec fn public_imports(modules: Seq<Module>, m: u32, k: nat) -> Seq<PublicItem>
    decreases k,
{
    if k == 0 {
        Seq::empty()
    } else {
        let before = public_imports(modules, m, (k - 1) as nat);
        let import = modules[m as int].imports@[k - 1];
        if import.visibility is Public {
            before.push(
                PublicItem {
                    gid: import.resolved->0,
                    path: modules[m as int].path@.join(import.local_name@),
                    is_kernel: modules[m as int].kind is Kernel,
                    lost: if import.resolved is None {
                        Some(import.span)
                    } else {
                        None
                    },
                },
            )
        } else {
            before
        }
    }
}

/// The public items of the first `k` of a list of modules.
pub open spec fn public_items(modules: Seq<Module>, list: Seq<u32>, k: nat) -> Seq<PublicItem>
    decreases k,
{
    if k == 0 {
        Seq::empty()
    } else {
        let m = list[k - 1];
        public_items(modules, list, (k - 1) as nat) + public_symbols(
            modules,
            m,
            modules[m as int].symbols@.len(),
        ) + public_imports(modules, m, modules[m as int].imports@.len())
    }
}

pub open spec fn export_texts(exports: Seq<PendingPackageExport>) -> Seq<Seq<char>> {
    Seq::new(exports.len(), |i: int| exports[i].place().text())
}

/// An export stands for an item.
#[verifier::opaque]
pub open spec fn stands_for(
    procs: Seq<ProcedureEntry>,
    modules: Seq<Module>,
    item: PublicItem,
    export: PendingPackageExport,
) -> bool {
    export_ok(procs, symbol_at(modules, item.gid).item, item.gid, item.path, export)
}

/// Exports in the order of their paths, one for each item.
pub open spec fn exports_items(
    procs: Seq<ProcedureEntry>,
    modules: Seq<Module>,
    items: Seq<PublicItem>,
    exports: Seq<PendingPackageExport>,
) -> bool {
    &&& exports.len() == items.len()
    &&& ordered(export_texts(exports))
    &&& forall|j: int|
        0 <= j < items.len() ==> exports_item(procs, modules, #[trigger] items[j], exports)
    &&& forall|i: int|
        0 <= i < exports.len() ==> is_item_export(procs, modules, items, #[trigger] exports[i])
}

/// One of the exports stands for an item.
#[verifier::opaque]
pub open spec fn exports_item(
    procs: Seq<ProcedureEntry>,
    modules: Seq<Module>,
    item: PublicItem,
    exports: Seq<PendingPackageExport>,
) -> bool {
    exists|i: int|
        0 <= i < exports.len() && stands_for(procs, modules, item, #[trigger] exports[i])
}

/// An export stands for one of the items.
#[verifier::opaque]
pub open spec fn is_item_export(
    procs: Seq<ProcedureEntry>,
    modules: Seq<Module>,
    items: Seq<PublicItem>,
    export: PendingPackageExport,
) -> bool {
    exists|j: int|
        0 <= j < items.len() && stands_for(procs, modules, #[trigger] items[j], export)
}

proof fn lemma_stands_stays(
    before: Seq<ProcedureEntry>,
    after: Seq<ProcedureEntry>,
    modules: Seq<Module>,
    item: PublicItem,
    export: PendingPackageExport,
)
    requires
        is_prefix(before, after),
        stands_for(before, modules, item, export),
    ensures
        stands_for(after, modules, item, export),
{
    reveal(stands_for);
    lemma_export_stays(
        before,
        after,
        symbol_at(modules, item.gid).item,
        item.gid,
        item.path,
        export,
    );
}

proof fn lemma_stands_path(
    procs: Seq<ProcedureEntry>,
    modules: Seq<Module>,
    item: PublicItem,
    export: PendingPackageExport,
)
    requires
        stands_for(procs, modules, item, export),
    ensures
        export.place() == item.path,
{
    reveal(stands_for);
}

proof fn lemma_exports_item(
    procs: Seq<ProcedureEntry>,
    modules: Seq<Module>,
    item: PublicItem,
    exports: Seq<PendingPackageExport>,
    i: int,
)
    requires
        0 <= i < exports.len(),
        stands_for(procs, modules, item, exports[i]),
    ensures
        exports_item(procs, modules, item, exports),
{
    reveal(exports_item);
}

proof fn lemma_is_item_export(
    procs: Seq<ProcedureEntry>,
    modules: Seq<Module>,
    items: Seq<PublicItem>,
    j: int,
    export: PendingPackageExport,
)
    requires
        0 <= j < items.len(),
        stands_for(procs, modules, items[j], export),
    ensures
        is_item_export(procs, modules, items, export),
{
    reveal(is_item_export);
}

/// The place of the export that stands for an item.
proof fn lemma_export_of(
    procs: Seq<ProcedureEntry>,
    modules: Seq<Module>,
    item: PublicItem,
    exports: Seq<PendingPackageExport>,
) -> (i: int)
    requires
        exports_item(procs, modules, item, exports),
    ensures
        0 <= i < exports.len(),
        stands_for(procs, modules, item, exports[i]),
{
    reveal(exports_item);
    choose|i: int|
        0 <= i < exports.len() && stands_for(procs, modules, item, #[trigger] exports[i])
}

/// The place of the item that an export stands for.
proof fn lemma_item_of(
    procs: Seq<ProcedureEntry>,
    modules: Seq<Module>,
    items: Seq<PublicItem>,
    export: PendingPackageExport,
) -> (j: int)
    requires
        is_item_export(procs, modules, items, export),
    ensures
        0 <= j < items.len(),
        stands_for(procs, modules, items[j], export),
{
    reveal(is_item_export);
    choose|j: int|
        0 <= j < items.len() && stands_for(procs, modules, #[trigger] items[j], export)
}

proof fn lemma_exports_stay(
    before: Seq<ProcedureEntry>,
    after: Seq<ProcedureEntry>,
    modules: Seq<Module>,
    items: Seq<PublicItem>,
    exports: Seq<PendingPackageExport>,
)
    requires
        is_prefix(before, after),
        exports_items(before, modules, items, exports),
    ensures
        exports_items(after, modules, items, exports),
{
    assert forall|j: int| 0 <= j < items.len() implies exports_item(
        after,
        modules,
        #[trigger] items[j],
        exports,
    ) by {
        let i = lemma_export_of(before, modules, items[j], exports);
        lemma_stands_stays(before, after, modules, items[j], exports[i]);
        lemma_exports_item(after, modules, items[j], exports, i);
    }
    assert forall|i: int| 0 <= i < exports.len() implies is_item_export(
        after,
        modules,
        items,
        #[trigger] exports[i],
    ) by {
        let j = lemma_item_of(before, modules, items, exports[i]);
        lemma_stands_stays(before, after, modules, items[j], exports[i]);
        lemma_is_item_export(after, modules, items, j, exports[i]);
    }
}

/// An export goes to its place in the order of paths; `false` if another one has its path.
fn insert_export(
    exports: &mut Vec<PendingPackageExport>,
    export: PendingPackageExport,
    Ghost(procs): Ghost<Seq<ProcedureEntry>>,
    Ghost(modules): Ghost<Seq<Module>>,
    Ghost(items): Ghost<Seq<PublicItem>>,
    Ghost(item): Ghost<PublicItem>,
) -> (res: bool)
    requires
        exports_items(procs, modules, items, old(exports)@),
        stands_for(procs, modules, item, export),
    ensures
        res ==> exports_items(procs, modules, items.push(item), final(exports)@),
        !res ==> repeats(items, item),
{
    let ghost before = exports@;
    let ghost texts = export_texts(exports@);
    let text = export.path().to_string();
    let ghost t = text@;
    let mut at: usize = 0;
    while at < exports.len() && is_before(
        exports[at].path().to_string().as_str(),
        text.as_str(),
    )
        invariant
            at <= exports@.len(),
            texts == export_texts(exports@),
            exports@ == before,
            t == text@,
            forall|k: int| 0 <= k < at ==> text_before(#[trigger] texts[k], t),
        decreases exports@.len() - at,
    {
        at += 1;
    }
    if at < exports.len() {
        let here = exports[at].path().to_string();
        proof {
            law_text_order_total(texts[at as int], t);
        }
        if here == text {
            proof {
                let j = lemma_item_of(procs, modules, items, before[at as int]);
                lemma_stands_path(procs, modules, items[j], before[at as int]);
                lemma_stands_path(procs, modules, item, export);
                assert(items[j].path.text() == item.path.text());
            }
            return false;
        }
    }
    let ghost added = export;
    exports.insert(at, export);
    proof {
        let after = exports@;
        let all = items.push(item);
        let after_texts = export_texts(after);
        assert(after =~= before.insert(at as int, added));
        assert(after_texts =~= texts.insert(at as int, t));
        assert forall|i: int, j: int| 0 <= i < j < after_texts.len() implies text_before(
            #[trigger] after_texts[i],
            #[trigger] after_texts[j],
        ) by {
            if i == at {
                assert(text_before(t, texts[at as int]));
                if j - 1 > at {
                    law_text_order_transitive(t, texts[at as int], texts[j - 1]);
                }
            } else if j == at {
            } else {
                let x = if i < at {
                    i
                } else {
                    i - 1
                };
                let y = if j < at {
                    j
                } else {
                    j - 1
                };
                assert(after_texts[i] == texts[x]);
                assert(after_texts[j] == texts[y]);
            }
        }
        assert forall|j: int| 0 <= j < all.len() implies exports_item(
            procs,
            modules,
            #[trigger] all[j],
            after,
        ) by {
            if j < items.len() {
                let i = lemma_export_of(procs, modules, items[j], before);
                let x = if i < at {
                    i
                } else {
                    i + 1
                };
                assert(after[x] == before[i]);
                lemma_exports_item(procs, modules, all[j], after, x);
            } else {
                assert(after[at as int] == added);
                lemma_exports_item(procs, modules, all[j], after, at as int);
            }
        }
        assert forall|i: int| 0 <= i < after.len() implies is_item_export(
            procs,
            modules,
            all,
            #[trigger] after[i],
        ) by {
            if i == at {
                assert(all[items.len() as int] == item);
                lemma_is_item_export(procs, modules, all, items.len() as int, after[i]);
            } else {
                let x = if i < at {
                    i
                } else {
                    i - 1
                };
                assert(after[i] == before[x]);
                let j = lemma_item_of(procs, modules, items, before[x]);
                assert(all[j] == items[j]);
                lemma_is_item_export(procs, modules, all, j, after[i]);
            }
        }
    }
    true
}

/// An item has the path of one of the items before it.
pub open spec fn repeats(items: Seq<PublicItem>, item: PublicItem) -> bool {
    exists|j: int| 0 <= j < items.len() && (#[trigger] items[j]).path.text() == item.path.text()
}

/// Two items have the same path.
pub open spec fn has_repetition(items: Seq<PublicItem>) -> bool {
    exists|j: int, k: int|
        0 <= j < k < items.len() && (#[trigger] items[j]).path.text() == (
        #[trigger] items[k]).path.text()
}

proof fn lemma_symbols_prefix(modules: Seq<Module>, m: u32, k: nat, n: nat)
    requires
        k <= n,
    ensures
        is_prefix(public_symbols(modules, m, k), public_symbols(modules, m, n)),
    decreases n - k,
{
    if k < n {
        lemma_symbols_prefix(modules, m, k, (n - 1) as nat);
    }
}

proof fn lemma_imports_prefix(modules: Seq<Module>, m: u32, k: nat, n: nat)
    requires
        k <= n,
    ensures
        is_prefix(public_imports(modules, m, k), public_imports(modules, m, n)),
    decreases n - k,
{
    if k < n {
        lemma_imports_prefix(modules, m, k, (n - 1) as nat);
    }
}

pub proof fn lemma_items_prefix(modules: Seq<Module>, list: Seq<u32>, k: nat, n: nat)
    requires
        k <= n,
    ensures
        is_prefix(public_items(modules, list, k), public_items(modules, list, n)),
    decreases n - k,
{
    if k < n {
        lemma_items_prefix(modules, list, k, (n - 1) as nat);
    }
}

/// The modules can be exported: their numbers are small enough, and imports lead to items.
pub open spec fn exportable(modules: Seq<Module>) -> bool {
    &&& modules_ok(modules)
    &&& reach_ok(modules)
    &&& forall|m: int|
        0 <= m < modules.len() ==> (#[trigger] modules[m]).symbols@.len() <= u32::MAX
    &&& forall|m: int, i: int|
        0 <= m < modules.len() && 0 <= i < modules[m].imports@.len() ==> (
        (#[trigger] modules[m].imports@[i]).resolved matches Some(gid) ==> has_item(modules, gid))
    &&& forall|m: int|
        0 <= m < modules.len() ==> match (#[trigger] modules[m]).advice_map {
            Some(map) => map.wf(),
            None => true,
        }
}

/// Items were exported one after another.
#[verifier::opaque]
pub open spec fn all_exported(
    a: Assembler,
    modules: Seq<Module>,
    items: Seq<PublicItem>,
    s: AssemblyState,
    s2: AssemblyState,
) -> bool
    decreases items.len(),
{
    if items.len() == 0 {
        s2 == s
    } else {
        exists|mid: AssemblyState| #[trigger]
            item_exported(a, modules, items.last(), mid, s2) && all_exported(
                a,
                modules,
                items.drop_last(),
                s,
                mid,
            )
    }
}

/// An item was exported.
pub open spec fn item_exported(
    a: Assembler,
    modules: Seq<Module>,
    item: PublicItem,
    s: AssemblyState,
    s2: AssemblyState,
) -> bool {
    item.lost is None && exported_from(a, modules, item.gid, item.path, item.is_kernel, s, s2)
}

pub proof fn lemma_none_exported(a: Assembler, modules: Seq<Module>, s: AssemblyState)
    ensures
        all_exported(a, modules, Seq::empty(), s, s),
{
    reveal(all_exported);
}

proof fn lemma_one_more_exported(
    a: Assembler,
    modules: Seq<Module>,
    items: Seq<PublicItem>,
    item: PublicItem,
    s: AssemblyState,
    mid: AssemblyState,
    s2: AssemblyState,
)
    requires
        all_exported(a, modules, items, s, mid),
        item_exported(a, modules, item, mid, s2),
    ensures
        all_exported(a, modules, items.push(item), s, s2),
{
    reveal(all_exported);
    let all = items.push(item);
    assert(all.drop_last() =~= items);
    assert(item_exported(a, modules, all.last(), mid, s2));
}

/// An item cannot be exported behind others: it leads nowhere, one of them has its path, or it
/// cannot be compiled.
pub open spec fn item_refused(
    a: Assembler,
    modules: Seq<Module>,
    done: Seq<PublicItem>,
    item: PublicItem,
    s: AssemblyState,
    after: AssemblyState,
    e: AssemblyError,
) -> bool {
    match e {
        AssemblyError::UnresolvedImport { span } => item.lost == Some(span) && after == s,
        AssemblyError::DuplicateExportPath { path } => path@ == item.path.text() && repeats(
            done,
            item,
        ) && item_exported(a, modules, item, s, after),
        _ => item.lost is None && export_failed(a, modules, item.gid, item.path, s, after, e),
    }
}

/// The first `k` of the items were exported, and the next one cannot be.
pub open spec fn stopped_at_item(
    a: Assembler,
    modules: Seq<Module>,
    items: Seq<PublicItem>,
    k: int,
    s: AssemblyState,
    mid: AssemblyState,
    after: AssemblyState,
    e: AssemblyError,
) -> bool {
    &&& 0 <= k < items.len()
    &&& all_exported(a, modules, items.take(k), s, mid)
    &&& !has_repetition(items.take(k))
    &&& item_refused(a, modules, items.take(k), items[k], mid, after, e)
}

/// Items cannot be exported, for one of them.
#[verifier::opaque]
pub open spec fn exports_failed(
    a: Assembler,
    modules: Seq<Module>,
    items: Seq<PublicItem>,
    s: AssemblyState,
    after: AssemblyState,
    e: AssemblyError,
) -> bool {
    exists|k: int, mid: AssemblyState| #[trigger]
        stopped_at_item(a, modules, items, k, s, mid, after, e)
}

/// What stopped at an item of a list stopped at that of a longer one.
proof fn lemma_stopped(
    a: Assembler,
    modules: Seq<Module>,
    done: Seq<PublicItem>,
    item: PublicItem,
    all: Seq<PublicItem>,
    s: AssemblyState,
    mid: AssemblyState,
    after: AssemblyState,
    e: AssemblyError,
)
    requires
        is_prefix(done.push(item), all),
        all_exported(a, modules, done, s, mid),
        !has_repetition(done),
        item_refused(a, modules, done, item, mid, after, e),
    ensures
        exports_failed(a, modules, all, s, after, e),
{
    reveal(exports_failed);
    let k = done.len() as int;
    let some = done.push(item);
    assert(all[k] == some[k]);
    assert forall|i: int| 0 <= i < k implies all.take(k)[i] == done[i] by {
        assert(all[i] == some[i]);
    }
    assert(all.take(k) =~= done);
    assert(stopped_at_item(a, modules, all, k, s, mid, after, e));
}

pub proof fn lemma_failed_stays(
    a: Assembler,
    modules: Seq<Module>,
    items: Seq<PublicItem>,
    all: Seq<PublicItem>,
    s: AssemblyState,
    after: AssemblyState,
    e: AssemblyError,
)
    requires
        is_prefix(items, all),
        exports_failed(a, modules, items, s, after, e),
    ensures
        exports_failed(a, modules, all, s, after, e),
        !(e is AdviceConflict),
{
    reveal(exports_failed);
    let (k, mid) = choose|k: int, mid: AssemblyState| #[trigger]
        stopped_at_item(a, modules, items, k, s, mid, after, e);
    let done = items.take(k);
    assert forall|i: int| 0 <= i < done.push(items[k]).len() implies done.push(items[k])[i]
        == all[i] by {
        assert(items[i] == all[i]);
    }
    lemma_stopped(a, modules, done, items[k], all, s, mid, after, e);
    if !(e is UnresolvedImport) && !(e is DuplicateExportPath) {
        lemma_export_failure_kind(a, modules, items[k], mid, after, e);
    }
}

/// Exports in the order of their paths stand for items of different paths.
proof fn lemma_no_repetition(
    procs: Seq<ProcedureEntry>,
    modules: Seq<Module>,
    items: Seq<PublicItem>,
    exports: Seq<PendingPackageExport>,
)
    requires
        exports_items(procs, modules, items, exports),
    ensures
        !has_repetition(items),
{
    let texts = export_texts(exports);
    let back = Seq::new(exports.len(), |i: int| item_of(procs, modules, items, exports[i]));
    assert forall|i: int| 0 <= i < exports.len() implies 0 <= #[trigger] back[i] < items.len()
        && texts[i] == items[back[i]].path.text() by {
        let j = lemma_item_of(procs, modules, items, exports[i]);
        reveal(is_item_export);
        lemma_stands_path(procs, modules, items[back[i]], exports[i]);
    }
    lemma_texts_differ(texts);
    assert forall|i: int, j: int| 0 <= i < exports.len() && 0 <= j < exports.len() && i
        != j implies back[i] != back[j] by {
        if back[i] == back[j] {
            assert(texts[i] == texts[j]);
        }
    }
    if has_repetition(items) {
        let (j, k) = choose|j: int, k: int|
            0 <= j < k < items.len() && (#[trigger] items[j]).path.text() == (
            #[trigger] items[k]).path.text();
        crate::finish::lemma_each_reached(back, items.len(), j);
        crate::finish::lemma_each_reached(back, items.len(), k);
        let x = choose|x: int| 0 <= x < back.len() && back[x] == j;
        let y = choose|y: int| 0 <= y < back.len() && back[y] == k;
        assert(texts[x] == items[back[x]].path.text());
        assert(texts[y] == items[back[y]].path.text());
    }
}

spec fn item_of(
    procs: Seq<ProcedureEntry>,
    modules: Seq<Module>,
    items: Seq<PublicItem>,
    export: PendingPackageExport,
) -> int {
    choose|j: int|
        0 <= j < items.len() && stands_for(procs, modules, #[trigger] items[j], export)
}

/// An error of compiling is none of exporting.
proof fn lemma_export_failure_kind(
    a: Assembler,
    modules: Seq<Module>,
    item: PublicItem,
    s: AssemblyState,
    after: AssemblyState,
    e: AssemblyError,
)
    requires
        export_failed(a, modules, item.gid, item.path, s, after, e),
    ensures
        e is Compile || e is Procedure || e is Limits || e is EntrypointWithLocals,
{
    let root = SubgraphRoot { proc_id: item.gid, is_program_entrypoint: false };
    if symbol_at(modules, item.gid).item is Procedure {
        lemma_subgraph_failure_kind(a, modules, root, s, after, e);
    }
}

proof fn lemma_texts_differ(texts: Seq<Seq<char>>)
    requires
        ordered(texts),
    ensures
        forall|i: int, j: int|
            0 <= i < texts.len() && 0 <= j < texts.len() && i != j ==> texts[i] != texts[j],
{
    assert forall|i: int, j: int|
        0 <= i < texts.len() && 0 <= j < texts.len() && i != j implies texts[i] != texts[j] by {
        if i < j {
            assert(text_before(texts[i], texts[j]));
        } else {
            assert(text_before(texts[j], texts[i]));
        }
        law_text_order_total(texts[i], texts[i]);
    }
}

impl Assembler {
    /// Exports the public symbols of a module.
    pub(crate) fn export_symbols(
        &self,
        modules: &Vec<Module>,
        m: u32,
        exports: &mut Vec<PendingPackageExport>,
        builder: &mut MastForestBuilder,
        Ghost(items): Ghost<Seq<PublicItem>>,
        Ghost(s): Ghost<AssemblyState>,
    ) -> (res: Result<(), AssemblyError>)
        requires
            self.wf(),
            builder_ok(*old(builder)),
            exportable(modules@),
            m < modules@.len(),
            exports_items(
                old(builder).registry.procedures@,
                modules@,
                items,
                old(exports)@,
            ),
            all_exported(*self, modules@, items, s, state_of(*old(builder))),
        ensures
            ({
                let all = items + public_symbols(
                    modules@,
                    m,
                    modules@[m as int].symbols@.len(),
                );
                match res {
                    Ok(_) => {
                        &&& builder_ok(*final(builder))
                        &&& final(builder).registry.advice_map == old(builder).registry.advice_map
                        &&& extends(old(builder)@, final(builder)@)
                        &&& keeps_imports(self.libraries, old(builder)@, final(builder)@)
                        &&& exports_items(
                            final(builder).registry.procedures@,
                            modules@,
                            all,
                            final(exports)@,
                        )
                        &&& all_exported(*self, modules@, all, s, state_of(*final(builder)))
                    },
                    Err(e) => exports_failed(
                        *self,
                        modules@,
                        all,
                        s,
                        state_of(*final(builder)),
                        e,
                    ),
                }
            }),
    {
        let module = &modules[m as usize];
        let ghost b = builder@;
        let n: usize = module.symbols.len();
        let ghost symbols = public_symbols(modules@, m, n as nat);
        proof {
            lemma_extends_refl(b);
            assert(items + public_symbols(modules@, m, 0) =~= items);
            assert(modules@[m as int].symbols@.len() <= u32::MAX);
        }
        let mut i: usize = 0;
        while i < n
            invariant
                i <= n == module.symbols@.len() <= u32::MAX,
                m < modules@.len(),
                *module == modules@[m as int],
                self.wf(),
                b == old(builder)@,
                b.wf(),
                builder_ok(*builder),
                builder.registry.advice_map == old(builder).registry.advice_map,
                exportable(modules@),
                extends(b, builder@),
                keeps_imports(self.libraries, b, builder@),
                symbols == public_symbols(modules@, m, n as nat),
                exports_items(
                    builder.registry.procedures@,
                    modules@,
                    items + public_symbols(modules@, m, i as nat),
                    exports@,
                ),
                all_exported(
                    *self,
                    modules@,
                    items + public_symbols(modules@, m, i as nat),
                    s,
                    state_of(*builder),
                ),
            decreases n - i,
        {
            let symbol = &module.symbols[i];
            let gid = GlobalItemIndex { module: m, index: i as u32 };
            if symbol.visibility.is_public() {
                let path = module.path.copy().join(symbol.name.clone());
                let ghost now = builder@;
                let ghost mid = state_of(*builder);
                let ghost procs = builder.registry.procedures@;
                let ghost done = items + public_symbols(modules@, m, i as nat);
                let ghost item = PublicItem {
                    gid,
                    path: path@,
                    is_kernel: module.kind is Kernel,
                    lost: None,
                };
                assert(has_item(modules@, gid));
                proof {
                    lemma_no_repetition(procs, modules@, done, exports@);
                    lemma_symbols_prefix(modules@, m, (i + 1) as nat, n as nat);
                    assert(done.push(item) =~= items + public_symbols(modules@, m, (i + 1) as nat));
                    assert(is_prefix(done.push(item), items + symbols));
                }
                let export = match self.export_symbol(modules, gid, module.kind, path, builder) {
                    Ok(export) => export,
                    Err(e) => {
                        proof {
                            lemma_export_failure_kind(
                                *self,
                                modules@,
                                item,
                                mid,
                                state_of(*builder),
                                e,
                            );
                            lemma_stopped(
                                *self,
                                modules@,
                                done,
                                item,
                                items + symbols,
                                s,
                                mid,
                                state_of(*builder),
                                e,
                            );
                        }
                        return Err(e);
                    },
                };
                proof {
                    lemma_extends_trans(b, now, builder@);
                    lemma_exports_stay(
                        procs,
                        builder.registry.procedures@,
                        modules@,
                        done,
                        exports@,
                    );
                    lemma_one_more_exported(
                        *self,
                        modules@,
                        done,
                        item,
                        s,
                        mid,
                        state_of(*builder),
                    );
                }
                proof {
                    reveal(stands_for);
                }
                let text = export.path().to_string();
                if !insert_export(
                    exports,
                    export,
                    Ghost(builder.registry.procedures@),
                    Ghost(modules@),
                    Ghost(done),
                    Ghost(item),
                ) {
                    let e = AssemblyError::DuplicateExportPath { path: text };
                    proof {
                        lemma_stopped(
                                *self,
                                modules@,
                                done,
                                item,
                                items + symbols,
                                s,
                                mid,
                                state_of(*builder),
                                e,
                            );
                    }
                    return Err(e);
                }
            }
            i += 1;
        }
        Ok(())
    }

    /// Exports what the public imports of a module lead to.
    pub(crate) fn export_imports(
        &self,
        modules: &Vec<Module>,
        m: u32,
        exports: &mut Vec<PendingPackageExport>,
        builder: &mut MastForestBuilder,
        Ghost(items): Ghost<Seq<PublicItem>>,
        Ghost(s): Ghost<AssemblyState>,
    ) -> (res: Result<(), AssemblyError>)
        requires
            self.wf(),
            builder_ok(*old(builder)),
            exportable(modules@),
            m < modules@.len(),
            exports_items(
                old(builder).registry.procedures@,
                modules@,
                items,
                old(exports)@,
            ),
            all_exported(*self, modules@, items, s, state_of(*old(builder))),
        ensures
            ({
                let all = items + public_imports(
                    modules@,
                    m,
                    modules@[m as int].imports@.len(),
                );
                match res {
                    Ok(_) => {
                        &&& builder_ok(*final(builder))
                        &&& final(builder).registry.advice_map == old(builder).registry.advice_map
                        &&& extends(old(builder)@, final(builder)@)
                        &&& keeps_imports(self.libraries, old(builder)@, final(builder)@)
                        &&& exports_items(
                            final(builder).registry.procedures@,
                            modules@,
                            all,
                            final(exports)@,
                        )
                        &&& all_exported(*self, modules@, all, s, state_of(*final(builder)))
                    },
                    Err(e) => exports_failed(
                        *self,
                        modules@,
                        all,
                        s,
                        state_of(*final(builder)),
                        e,
                    ),
                }
            }),
    {
        let module = &modules[m as usize];
        let ghost b = builder@;
        let n: usize = module.imports.len();
        let ghost imports = public_imports(modules@, m, n as nat);
        proof {
            lemma_extends_refl(b);
            assert(items + public_imports(modules@, m, 0) =~= items);
        }
        let mut i: usize = 0;
        while i < n
            invariant
                i <= n == module.imports@.len(),
                m < modules@.len(),
                *module == modules@[m as int],
                self.wf(),
                b == old(builder)@,
                b.wf(),
                builder_ok(*builder),
                builder.registry.advice_map == old(builder).registry.advice_map,
                exportable(modules@),
                extends(b, builder@),
                keeps_imports(self.libraries, b, builder@),
                imports == public_imports(modules@, m, n as nat),
                exports_items(
                    builder.registry.procedures@,
                    modules@,
                    items + public_imports(modules@, m, i as nat),
                    exports@,
                ),
                all_exported(
                    *self,
                    modules@,
                    items + public_imports(modules@, m, i as nat),
                    s,
                    state_of(*builder),
                ),
            decreases n - i,
        {
            let import = &module.imports[i];
            if import.visibility.is_public() {
                let path = module.path.copy().join(import.local_name.clone());
                let ghost now = builder@;
                let ghost mid = state_of(*builder);
                let ghost procs = builder.registry.procedures@;
                let ghost done = items + public_imports(modules@, m, i as nat);
                let ghost item = PublicItem {
                    gid: import.resolved->0,
                    path: path@,
                    is_kernel: module.kind is Kernel,
                    lost: if import.resolved is None {
                        Some(import.span)
                    } else {
                        None
                    },
                };
                assert(modules@[m as int].imports@[i as int] == *import);
                if import.resolved.is_none() {
                    let e = AssemblyError::UnresolvedImport { span: import.span };
                    proof {
                        lemma_no_repetition(procs, modules@, done, exports@);
                        lemma_imports_prefix(modules@, m, (i + 1) as nat, n as nat);
                        assert(done.push(item) =~= items + public_imports(
                            modules@,
                            m,
                            (i + 1) as nat,
                        ));
                        assert(is_prefix(done.push(item), items + imports));
                        lemma_stopped(
                                *self,
                                modules@,
                                done,
                                item,
                                items + imports,
                                s,
                                mid,
                                state_of(*builder),
                                e,
                            );
                    }
                    return Err(e);
                }
                proof {
                    lemma_no_repetition(procs, modules@, done, exports@);
                    lemma_imports_prefix(modules@, m, (i + 1) as nat, n as nat);
                    assert(done.push(item) =~= items + public_imports(modules@, m, (i + 1) as nat));
                    assert(is_prefix(done.push(item), items + imports));
                }
                let export = match self.export_import(modules, import, module.kind, path, builder) {
                    Ok(export) => export,
                    Err(e) => {
                        proof {
                            lemma_export_failure_kind(
                                *self,
                                modules@,
                                item,
                                mid,
                                state_of(*builder),
                                e,
                            );
                            lemma_stopped(
                                *self,
                                modules@,
                                done,
                                item,
                                items + imports,
                                s,
                                mid,
                                state_of(*builder),
                                e,
                            );
                        }
                        return Err(e);
                    },
                };
                proof {
                    lemma_extends_trans(b, now, builder@);
                    lemma_exports_stay(
                        procs,
                        builder.registry.procedures@,
                        modules@,
                        done,
                        exports@,
                    );
                    lemma_one_more_exported(
                        *self,
                        modules@,
                        done,
                        item,
                        s,
                        mid,
                        state_of(*builder),
                    );
                }
                proof {
                    reveal(stands_for);
                }
                let text = export.path().to_string();
                if !insert_export(
                    exports,
                    export,
                    Ghost(builder.registry.procedures@),
                    Ghost(modules@),
                    Ghost(done),
                    Ghost(item),
                ) {
                    let e = AssemblyError::DuplicateExportPath { path: text };
                    proof {
                        lemma_stopped(
                                *self,
                                modules@,
                                done,
                                item,
                                items + imports,
                                s,
                                mid,
                                state_of(*builder),
                                e,
                            );
                    }
                    return Err(e);
                }
            }
            i += 1;
        }
        Ok(())
    }
}

/// A module offers an item to others: a public symbol of it under its name, or a public import
/// under its local name, below the path of the module.
pub open spec fn offers(modules: Seq<Module>, m: u32, item: PublicItem) -> bool {
    let module = modules[m as int];
    &&& item.is_kernel == (module.kind is Kernel)
    &&& {
        ||| exists|i: int|
            0 <= i < module.symbols@.len() && {
                &&& (#[trigger] module.symbols@[i]).visibility is Public
                &&& item.gid == GlobalItemIndex { module: m, index: i as u32 }
                &&& item.path == module.path@.join(module.symbols@[i].name@)
                &&& item.lost is None
            }
        ||| exists|i: int|
            0 <= i < module.imports@.len() && {
                &&& (#[trigger] module.imports@[i]).visibility is Public
                &&& item.gid == module.imports@[i].resolved->0
                &&& item.path == module.path@.join(module.imports@[i].local_name@)
                &&& item.lost == if module.imports@[i].resolved is None {
                    Some(module.imports@[i].span)
                } else {
                    None
                }
            }
    }
}

proof fn lemma_public_symbols(modules: Seq<Module>, m: u32, k: nat, item: PublicItem)
    requires
        k <= modules[m as int].symbols@.len(),
    ensures
        public_symbols(modules, m, k).contains(item) <==> item.lost is None && item.is_kernel == (
        modules[m as int].kind is Kernel) && exists|i: int|
            0 <= i < k && {
                &&& (#[trigger] modules[m as int].symbols@[i]).visibility is Public
                &&& item.gid == GlobalItemIndex { module: m, index: i as u32 }
                &&& item.path == modules[m as int].path@.join(modules[m as int].symbols@[i].name@)
            },
    decreases k,
{
    if k > 0 {
        lemma_public_symbols(modules, m, (k - 1) as nat, item);
        let before = public_symbols(modules, m, (k - 1) as nat);
        let all = public_symbols(modules, m, k);
        if modules[m as int].symbols@[k - 1].visibility is Public {
            lemma_pushed_contains(before, all.last(), item);
            assert(all =~= before.push(all.last()));
        }
    }
}

proof fn lemma_pushed_contains(list: Seq<PublicItem>, last: PublicItem, item: PublicItem)
    ensures
        list.push(last).contains(item) <==> list.contains(item) || last == item,
{
    if list.contains(item) {
        let i = list.index_of(item);
        assert(list.push(last)[i] == item);
    }
    assert(list.push(last)[list.len() as int] == last);
    if list.push(last).contains(item) && last != item {
        let i = list.push(last).index_of(item);
        assert(list[i] == item);
    }
}

proof fn lemma_public_imports(modules: Seq<Module>, m: u32, k: nat, item: PublicItem)
    requires
        k <= modules[m as int].imports@.len(),
    ensures
        public_imports(modules, m, k).contains(item) <==> item.is_kernel == (
        modules[m as int].kind is Kernel) && exists|i: int|
            0 <= i < k && {
                let import = #[trigger] modules[m as int].imports@[i];
                &&& import.visibility is Public
                &&& item.gid == import.resolved->0
                &&& item.path == modules[m as int].path@.join(import.local_name@)
                &&& item.lost == if import.resolved is None {
                    Some(import.span)
                } else {
                    None
                }
            },
    decreases k,
{
    if k > 0 {
        lemma_public_imports(modules, m, (k - 1) as nat, item);
        let before = public_imports(modules, m, (k - 1) as nat);
        let all = public_imports(modules, m, k);
        if modules[m as int].imports@[k - 1].visibility is Public {
            lemma_pushed_contains(before, all.last(), item);
            assert(all =~= before.push(all.last()));
        }
    }
}

/// What is exported of modules is what they offer: every public symbol and every public import, and
/// nothing that is private.
pub proof fn law_public_items_are_exported(
    modules: Seq<Module>,
    list: Seq<u32>,
    k: nat,
    item: PublicItem,
)
    requires
        k <= list.len(),
    ensures
        public_items(modules, list, k).contains(item) <==> exists|j: int|
            0 <= j < k && offers(modules, #[trigger] list[j], item),
    decreases k,
{
    if k > 0 {
        law_public_items_are_exported(modules, list, (k - 1) as nat, item);
        let m = list[k - 1];
        let module = modules[m as int];
        lemma_public_symbols(modules, m, module.symbols@.len(), item);
        lemma_public_imports(modules, m, module.imports@.len(), item);
        let before = public_items(modules, list, (k - 1) as nat);
        let own = public_symbols(modules, m, module.symbols@.len());
        let more = public_imports(modules, m, module.imports@.len());
        lemma_three_contain(before, own, more, item);
        assert(own.contains(item) || more.contains(item) <==> offers(modules, m, item));
    }
}

proof fn lemma_three_contain(
    a: Seq<PublicItem>,
    b: Seq<PublicItem>,
    c: Seq<PublicItem>,
    item: PublicItem,
)
    ensures
        (a + b + c).contains(item) <==> a.contains(item) || b.contains(item) || c.contains(item),
{
    let all = a + b + c;
    if a.contains(item) {
        assert(all[a.index_of(item)] == item);
    }
    if b.contains(item) {
        assert(all[a.len() + b.index_of(item)] == item);
    }
    if c.contains(item) {
        assert(all[a.len() + b.len() + c.index_of(item)] == item);
    }
    if all.contains(item) {
        let i = all.index_of(item);
        if i < a.len() {
            assert(a[i] == item);
        } else if i < a.len() + b.len() {
            assert(b[i - a.len()] == item);
        } else {
            assert(c[i - a.len() - b.len()] == item);
        }
    }
}

/// What is exported is compiled as a procedure that others call, never as an entry point.
pub proof fn law_exports_are_no_entry_points(
    a: Assembler,
    modules: Seq<Module>,
    gid: GlobalItemIndex,
    path: SymbolPath,
    is_kernel: bool,
    s: AssemblyState,
    s2: AssemblyState,
)
    requires
        exported_from(a, modules, gid, path, is_kernel, s, s2),
        symbol_at(modules, gid).item is Procedure,
    ensures
        exists|root: SubgraphRoot, list: Seq<GlobalItemIndex>| #[trigger]
            worklist_done(a, modules, list, root, s, s2, list.len()) && root.proc_id == gid
                && forall|other: GlobalItemIndex| !#[trigger] root.is_entry(other),
{
    let root = SubgraphRoot { proc_id: gid, is_program_entrypoint: false };
    let list = (symbol_at(modules, gid).item->Procedure_0).reaches@;
    assert(worklist_done(a, modules, list, root, s, s2, list.len()));
    assert forall|other: GlobalItemIndex| !#[trigger] root.is_entry(other) by {}
}

/// The export of an item is of its kind and stands under its path: a procedure with the code, the
/// body and the occurrence under which it was recorded, and with the code that it was compiled to
/// before if it comes from a library; a constant with its value; and a type as it is.
pub proof fn law_exports_stand_for_their_item(
    procs: Seq<ProcedureEntry>,
    item: SymbolItem,
    gid: GlobalItemIndex,
    path: SymbolPath,
    export: PendingPackageExport,
)
    requires
        export_ok(procs, item, gid, path, export),
    ensures
        match export {
            PendingPackageExport::Procedure(e) => {
                &&& e.path@ == path
                &&& item is Procedure || (item is Compiled && item->Compiled_0 is Procedure)
                &&& exists|i: int|
                    0 <= i < procs.len() && (#[trigger] procs[i]).gid == gid
                        && procs[i].procedure.mast_root == e.digest
                        && procs[i].procedure.body_node_ref == e.node_ref && e.source_ref == Some(
                        procs[i].procedure.body_source_ref,
                    )
                &&& item matches SymbolItem::Compiled(ItemInfo::Procedure {
                    compiled,
                    signature: _,
                    attributes: _,
                }) ==> compiled.mast_root == e.digest
            },
            PendingPackageExport::Constant { path: p, value } => p@ == path && (item matches
                SymbolItem::Constant { value: v } ==> v@ == value@) && !(item is Procedure)
                && !(item is Type),
            PendingPackageExport::Type { path: p, ty } => p@ == path && (item matches
                SymbolItem::Type { decl: _, ty: t } ==> t@ == ty@) && !(item is Procedure)
                && !(item is Constant),
        },
{
    if export is Procedure {
        lemma_entry_is_there(procs, gid, procs.len());
    }
}

proof fn lemma_entry_is_there(procs: Seq<ProcedureEntry>, gid: GlobalItemIndex, k: nat)
    requires
        k <= procs.len(),
    ensures
        procedure_index(procs, gid, k) matches Some(i) ==> i < k && procs[i as int].gid == gid,
    decreases k,
{
    if k > 0 {
        lemma_entry_is_there(procs, gid, (k - 1) as nat);
    }
}

} // verus!
