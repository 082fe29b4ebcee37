//! Assembling libraries and programs.

use vstd::prelude::*;
use vstd::string::*;

use crate::assembler::{
    builder_ok, has_item, is_known, signature_model, state_of, symbol_at, worklist_done, AssemblyError,
    AssemblyState, ConstantValue, Module, SubgraphRoot, SymbolItem,
};
use crate::body::Assembler;
use crate::builder::{
    digest_of_ref, extends, lemma_extends_refl, lemma_extends_trans, BuilderModel,
    MastForestBuilder,
};
use crate::exports::{
    all_exported, entry_of, exportable, exports_failed, exports_items, lemma_failed_stays,
    lemma_items_prefix, lemma_none_exported, lemma_subgraph_failure_kind, subgraph_failed,
    public_imports, public_items, public_symbols, PendingPackageExport,
    PendingProcedureExport, PublicItem,
};
use crate::felt::Word;
use crate::finalizer::{finished, MastForestBuilderError};
use crate::finish::{build_refused, forest_of, is_built, BuiltMastForest};
use crate::forest::{AdviceModel, ForestModel};
use crate::linked_names::keeps_imports;
use crate::node::{MastNodeId, NodeModel};
use crate::package_modules::{
    are_package_modules, distinct_modules, package_modules, PackageModule,
};
use crate::path::{GlobalItemIndex, Path};
use crate::pending::{MastNodeRef, MastNodeUse, SourceNodeRef};
use crate::procedure::AttributeSet;
use crate::procedures::{
    advice_conflict, lemma_procedure_index, merged_advice, procedure_index,
};
use crate::type_expr::TypeExpr;
use crate::types::{Signature, Type};
use crate::visibility::{
    all_types, exports_type, is_type_chain, law_offered_items_rest_on_public_types,
    modules_fault, offers, refers, ExportFault, TypeChecker, TypeGraph, TypeReference,
};

verus! {

// ADVICE
// ================================================================================================

/// An advice map with that of a module.
pub open spec fn with_module_advice(advice: AdviceModel, module: Module) -> Result<
    AdviceModel,
    Word,
> {
    match module.advice_map {
        None => Ok(advice),
        Some(map) => match advice_conflict(advice, map@, map@.len()) {
            Some(key) => Err(key),
            None => Ok(merged_advice(advice, map@, map@.len())),
        },
    }
}

/// An advice map with those of the first `k` of a list of modules, unless values differ.
pub open spec fn with_advice(
    advice: AdviceModel,
    modules: Seq<Module>,
    list: Seq<u32>,
    k: nat,
) -> Result<AdviceModel, Word>
    decreases k,
{
    if k == 0 {
        Ok(advice)
    } else {
        match with_advice(advice, modules, list, (k - 1) as nat) {
            Err(key) => Err(key),
            Ok(before) => with_module_advice(before, modules[list[k - 1] as int]),
        }
    }
}

fn merge_module_advice(builder: &mut MastForestBuilder, module: &Module) -> (res: Result<(), Word>)
    requires
        builder_ok(*old(builder)),
        module.advice_map matches Some(map) ==> map.wf(),
    ensures
        builder_ok(*final(builder)),
        final(builder)@ == old(builder)@,
        final(builder).registry.procedures == old(builder).registry.procedures,
        final(builder).registry.tables == old(builder).registry.tables,
        match res {
            Ok(_) => with_module_advice(old(builder).registry.advice_map@, *module) == Ok::<
                AdviceModel,
                Word,
            >(final(builder).registry.advice_map@),
            Err(key) => with_module_advice(old(builder).registry.advice_map@, *module) == Err::<
                AdviceModel,
                Word,
            >(key) && final(builder).registry.advice_map@ == old(builder).registry.advice_map@,
        },
{
    match &module.advice_map {
        None => Ok(()),
        Some(map) => builder.merge_advice_map(map),
    }
}

// LIBRARIES
// ================================================================================================

/// The advice of a module differs from that of the modules before it, whose items were exported.
pub open spec fn advice_stopped(
    a: Assembler,
    modules: Seq<Module>,
    list: Seq<u32>,
    advice: AdviceModel,
    s: AssemblyState,
    after: AssemblyState,
    key: Word,
) -> bool {
    exists|k: nat|
        #![trigger public_items(modules, list, k)]
        k < list.len() && all_exported(a, modules, public_items(modules, list, k), s, after)
            && with_advice(advice, modules, list, k + 1) == Err::<AdviceModel, Word>(key)
            && with_advice(advice, modules, list, k) is Ok
}

impl Assembler {
    /// Compiles and exports the public items of modules, and takes over their advice.
    ///
    /// Refuses items under one path, imports that lead nowhere, and advice that differs.
    pub fn assemble_library_product(
        &self,
        modules: &Vec<Module>,
        list: &Vec<u32>,
        builder: &mut MastForestBuilder,
    ) -> (res: Result<Vec<PendingPackageExport>, AssemblyError>)
        requires
            self.wf(),
            builder_ok(*old(builder)),
            exportable(modules@),
            forall|i: int| 0 <= i < list@.len() ==> (#[trigger] list@[i]) < modules@.len(),
        ensures
            ({
                let items = public_items(modules@, list@, list@.len());
                let advice = with_advice(
                    old(builder).registry.advice_map@,
                    modules@,
                    list@,
                    list@.len(),
                );
                match res {
                    Ok(exports) => {
                        &&& builder_ok(*final(builder))
                        &&& extends(old(builder)@, final(builder)@)
                        &&& keeps_imports(self.libraries, old(builder)@, final(builder)@)
                        &&& exports_items(
                            final(builder).registry.procedures@,
                            modules@,
                            items,
                            exports@,
                        )
                        &&& all_exported(
                            *self,
                            modules@,
                            items,
                            state_of(*old(builder)),
                            state_of(*final(builder)),
                        )
                        &&& advice == Ok::<AdviceModel, Word>(
                            final(builder).registry.advice_map@,
                        )
                    },
                    Err(e) => assembly_refused(
                        *self,
                        modules@,
                        list@,
                        *old(builder),
                        *final(builder),
                        e,
                    ),
                }
            }),
    {
        let ghost b = builder@;
        let ghost advice = builder.registry.advice_map@;
        let n: usize = list.len();
        let ghost all = public_items(modules@, list@, n as nat);
        let mut exports: Vec<PendingPackageExport> = Vec::new();
        let ghost s = state_of(*builder);
        proof {
            lemma_extends_refl(b);
            assert(crate::exports::export_texts(exports@) =~= Seq::empty());
            lemma_none_exported(*self, modules@, s);
        }
        let mut i: usize = 0;
        while i < n
            invariant
                i <= n == list@.len(),
                self.wf(),
                b == old(builder)@,
                b.wf(),
                advice == old(builder).registry.advice_map@,
                builder_ok(*builder),
                exportable(modules@),
                forall|i: int| 0 <= i < list@.len() ==> (#[trigger] list@[i]) < modules@.len(),
                all == public_items(modules@, list@, n as nat),
                extends(b, builder@),
                keeps_imports(self.libraries, b, builder@),
                exports_items(
                    builder.registry.procedures@,
                    modules@,
                    public_items(modules@, list@, i as nat),
                    exports@,
                ),
                s == state_of(*old(builder)),
                all_exported(
                    *self,
                    modules@,
                    public_items(modules@, list@, i as nat),
                    s,
                    state_of(*builder),
                ),
                with_advice(advice, modules@, list@, i as nat) == Ok::<AdviceModel, Word>(
                    builder.registry.advice_map@,
                ),
            decreases n - i,
        {
            let m: u32 = list[i];
            assert(list@[i as int] < modules@.len());
            let ghost module = modules@[m as int];
            assert(match module.advice_map {
                Some(map) => map.wf(),
                None => true,
            });
            match merge_module_advice(builder, &modules[m as usize]) {
                Ok(_) => {},
                Err(key) => {
                    return Err(AssemblyError::AdviceConflict { key });
                },
            }
            let ghost before = public_items(modules@, list@, i as nat);
            let ghost own = public_symbols(modules@, m, module.symbols@.len());
            let ghost imported = public_imports(modules@, m, module.imports@.len());
            let ghost now = builder@;
            proof {
                lemma_items_prefix(modules@, list@, (i + 1) as nat, n as nat);
                let next = before + own + imported;
                assert(next == public_items(modules@, list@, (i + 1) as nat));
                assert forall|k: int| 0 <= k < (before + own).len() implies #[trigger] (before
                    + own)[k] == all[k] by {
                    assert(next[k] == all[k]);
                }
            }
            match self.export_symbols(modules, m, &mut exports, builder, Ghost(before), Ghost(s)) {
                Ok(_) => {},
                Err(e) => {
                    proof {
                        lemma_failed_stays(
                            *self,
                            modules@,
                            before + own,
                            all,
                            s,
                            state_of(*builder),
                            e,
                        );
                    }
                    return Err(e);
                },
            }
            let ghost between = builder@;
            match self.export_imports(modules, m, &mut exports, builder, Ghost(before + own), Ghost(s)) {
                Ok(_) => {},
                Err(e) => {
                    proof {
                        lemma_failed_stays(
                            *self,
                            modules@,
                            before + own + imported,
                            all,
                            s,
                            state_of(*builder),
                            e,
                        );
                    }
                    return Err(e);
                },
            }
            proof {
                lemma_extends_trans(b, now, between);
                lemma_extends_trans(b, between, builder@);
            }
            i += 1;
        }
        Ok(exports)
    }
}

/// Items that are exported together have different paths.
pub proof fn law_exported_paths_differ(
    procs: Seq<crate::registry::ProcedureEntry>,
    modules: Seq<Module>,
    items: Seq<PublicItem>,
    exports: Seq<PendingPackageExport>,
    i: int,
    j: int,
)
    requires
        exports_items(procs, modules, items, exports),
        0 <= i < j < exports.len(),
    ensures
        exports[i].place().text() != exports[j].place().text(),
{
    let texts = crate::exports::export_texts(exports);
    assert(crate::path::text_before(texts[i], texts[j]));
    crate::path::law_text_order_total(texts[i], texts[i]);
}

// FINISHED EXPORTS
// ================================================================================================

/// A procedure that is exported, with its node and its occurrence in the finished forest.
pub struct ProcedureExport {
    pub digest: Word,
    pub path: Path,
    pub node: MastNodeId,
    pub source_node: Option<u32>,
    pub signature: Option<Signature>,
    pub attributes: AttributeSet,
}

/// An item that is exported.
pub enum PackageExport {
    Procedure(ProcedureExport),
    Constant { path: Path, value: ConstantValue },
    Type { path: Path, ty: Type },
}

/// Where an occurrence went.
pub open spec fn final_source(
    source_id_by_ref: Seq<Option<u32>>,
    source_ref: Option<SourceNodeRef>,
) -> Option<u32> {
    match source_ref {
        Some(s) => if s.0 < source_id_by_ref.len() {
            source_id_by_ref[s.0 as int]
        } else {
            None
        },
        None => None,
    }
}

/// Where a node went.
pub open spec fn final_node(node_id_by_ref: Seq<Option<u32>>, node_ref: MastNodeRef) -> Option<u32> {
    if node_ref.0 < node_id_by_ref.len() {
        node_id_by_ref[node_ref.0 as int]
    } else {
        None
    }
}

/// An export in terms of the finished forest.
pub open spec fn finished_as(
    node_id_by_ref: Seq<Option<u32>>,
    source_id_by_ref: Seq<Option<u32>>,
    pending: PendingPackageExport,
    export: PackageExport,
) -> bool {
    match pending {
        PendingPackageExport::Procedure(p) => export matches PackageExport::Procedure(e) && Some(
            e.node.0,
        ) == final_node(node_id_by_ref, p.node_ref) && e.source_node == final_source(
            source_id_by_ref,
            p.source_ref,
        ) && e.digest == p.digest && e.path == p.path && e.signature == p.signature
            && e.attributes == p.attributes,
        PendingPackageExport::Constant { path, value } => export == (PackageExport::Constant {
            path,
            value,
        }),
        PendingPackageExport::Type { path, ty } => export == (PackageExport::Type { path, ty }),
    }
}

impl PendingPackageExport {
    /// The export in terms of the finished forest. Refuses a procedure whose code is not in it.
    pub fn into_package_export(
        self,
        node_id_by_ref: &Vec<Option<u32>>,
        source_id_by_ref: &Vec<Option<u32>>,
    ) -> (res: Result<PackageExport, AssemblyError>)
        ensures
            match res {
                Ok(export) => finished_as(
                    node_id_by_ref@,
                    source_id_by_ref@,
                    self,
                    export,
                ),
                Err(e) => self matches PendingPackageExport::Procedure(p) && final_node(
                    node_id_by_ref@,
                    p.node_ref,
                ) is None && e == (AssemblyError::NotFinalized { node_ref: p.node_ref }),
            },
    {
        match self {
            PendingPackageExport::Constant { path, value } => Ok(
                PackageExport::Constant { path, value },
            ),
            PendingPackageExport::Type { path, ty } => Ok(PackageExport::Type { path, ty }),
            PendingPackageExport::Procedure(p) => {
                let r: usize = p.node_ref.0 as usize;
                let node: u32 = if r < node_id_by_ref.len() {
                    match node_id_by_ref[r] {
                        Some(node) => node,
                        None => {
                            return Err(AssemblyError::NotFinalized { node_ref: p.node_ref });
                        },
                    }
                } else {
                    return Err(AssemblyError::NotFinalized { node_ref: p.node_ref });
                };
                let source_node: Option<u32> = match p.source_ref {
                    Some(s) => if (s.0 as usize) < source_id_by_ref.len() {
                        source_id_by_ref[s.0 as usize]
                    } else {
                        None
                    },
                    None => None,
                };
                Ok(
                    PackageExport::Procedure(
                        ProcedureExport {
                            digest: p.digest,
                            path: p.path,
                            node: MastNodeId(node),
                            source_node,
                            signature: p.signature,
                            attributes: p.attributes,
                        },
                    ),
                )
            },
        }
    }
}

/// Exports in terms of the finished forest, in order.
pub open spec fn all_finished(
    node_id_by_ref: Seq<Option<u32>>,
    source_id_by_ref: Seq<Option<u32>>,
    pending: Seq<PendingPackageExport>,
    exports: Seq<PackageExport>,
) -> bool {
    &&& exports.len() == pending.len()
    &&& forall|i: int|
        0 <= i < pending.len() ==> finished_as(
            node_id_by_ref,
            source_id_by_ref,
            pending[i],
            #[trigger] exports[i],
        )
}

/// An export is that of a procedure whose code is not in the finished forest.
pub open spec fn is_lost(
    node_id_by_ref: Seq<Option<u32>>,
    pending: PendingPackageExport,
    node_ref: MastNodeRef,
) -> bool {
    pending matches PendingPackageExport::Procedure(p) && p.node_ref == node_ref && final_node(
        node_id_by_ref,
        node_ref,
    ) is None
}

/// One of the exports is that of a procedure whose code is not in the finished forest.
pub open spec fn loses(
    node_id_by_ref: Seq<Option<u32>>,
    pending: Seq<PendingPackageExport>,
    node_ref: MastNodeRef,
) -> bool {
    exists|i: int|
        0 <= i < pending.len() && #[trigger] is_lost(node_id_by_ref, pending[i], node_ref)
}

/// The exports of a library in terms of its finished forest. Refuses a procedure whose code is not
/// in it.
pub fn finish_exports(pending: Vec<PendingPackageExport>, built: &BuiltMastForest) -> (res: Result<
    Vec<PackageExport>,
    AssemblyError,
>)
    ensures
        match res {
            Ok(exports) => all_finished(
                built.node_id_by_ref@,
                built.graph.source_id_by_ref@,
                pending@,
                exports@,
            ),
            Err(AssemblyError::NotFinalized { node_ref }) => loses(
                built.node_id_by_ref@,
                pending@,
                node_ref,
            ),
            Err(_) => false,
        },
{
    let ghost all = pending@;
    let mut left = pending;
    let mut exports: Vec<PackageExport> = Vec::new();
    let ghost n = all.len();
    while left.len() > 0
        invariant
            left@.len() + exports@.len() == n == all.len(),
            left@ == all.skip(exports@.len() as int),
            all == pending@,
            forall|i: int|
                0 <= i < exports@.len() ==> finished_as(
                    built.node_id_by_ref@,
                    built.graph.source_id_by_ref@,
                    all[i],
                    #[trigger] exports@[i],
                ),
        decreases left@.len(),
    {
        let ghost k = exports@.len() as int;
        let next = left.remove(0);
        assert(next == all[k]);
        assert(left@ =~= all.skip(k + 1));
        let export = match next.into_package_export(
            &built.node_id_by_ref,
            &built.graph.source_id_by_ref,
        ) {
            Ok(export) => export,
            Err(e) => {
                proof {
                    let p = all[k]->Procedure_0;
                    assert(e == (AssemblyError::NotFinalized { node_ref: p.node_ref }));
                    assert(is_lost(built.node_id_by_ref@, all[k], p.node_ref));
                    assert(loses(built.node_id_by_ref@, all, p.node_ref));
                }
                return Err(e);
            },
        };
        exports.push(export);
    }
    Ok(exports)
}

/// A procedure that is exported from a builder is found in the finished forest: its node is there,
/// with the digest that the builder has for it, and it is a root.
pub proof fn law_exported_procedures_are_found(
    b: BuilderModel,
    forest: ForestModel,
    ids: Seq<Option<u32>>,
    sources: Seq<Option<u32>>,
    pending: PendingProcedureExport,
)
    requires
        b.wf(),
        forest_of(b, forest, ids),
        b.roots.contains(pending.node_ref),
    ensures
        !is_lost(ids, PendingPackageExport::Procedure(pending), pending.node_ref),
        forall|export: PackageExport| #[trigger]
            finished_as(ids, sources, PendingPackageExport::Procedure(pending), export) ==> {
                &&& export matches PackageExport::Procedure(e) && is_found(
                    forest,
                    e,
                    digest_of_ref(b, pending.node_ref),
                ) && e.digest == pending.digest
            },
{
    law_roots_are_found(b, forest, ids, pending.node_ref);
}

/// The root of a procedure is found in the finished forest, as one of its roots and with the digest
/// that the builder has for it.
pub proof fn law_roots_are_found(
    b: BuilderModel,
    forest: ForestModel,
    ids: Seq<Option<u32>>,
    r: MastNodeRef,
)
    requires
        b.wf(),
        forest_of(b, forest, ids),
        b.roots.contains(r),
    ensures
        final_node(ids, r) matches Some(i) && i < forest.nodes.len()
            && forest.nodes[i as int].digest == digest_of_ref(b, r) && forest.roots.contains(
            MastNodeId(i),
        ),
{
    let j = choose|j: int| 0 <= j < b.roots.len() && b.roots[j] == r;
    assert(b.roots[j].0 < b.nodes.len());
    assert(ids[b.roots[j].0 as int] == Some(forest.roots[j].0));
    assert(ids[r.0 as int] is Some);
    let node = forest.nodes[ids[r.0 as int]->0 as int];
    assert(finished(b.nodes[r.0 as int], MastNodeRef(r.0), ids) == Ok::<
        NodeModel,
        MastForestBuilderError,
    >(node));
    assert(node.digest == b.nodes[r.0 as int].digest);
    assert(forest.roots[j] == MastNodeId(ids[r.0 as int]->0));
}

/// The node of an exported procedure is a root of a forest, and has a digest.
pub open spec fn is_found(forest: ForestModel, export: ProcedureExport, digest: Word) -> bool {
    &&& export.node.0 < forest.nodes.len()
    &&& forest.nodes[export.node.0 as int].digest == digest
    &&& forest.roots.contains(export.node)
}

// LIBRARY PRODUCTS
// ================================================================================================

/// A library: its forest with debug information, what it exports, and its modules.
pub struct LibraryProduct {
    pub built: BuiltMastForest,
    pub exports: Vec<PackageExport>,
    pub modules: Vec<PackageModule>,
}

/// Why a library or a program cannot be made.
pub enum ProductError {
    /// What is exported rests on a private type.
    Visibility(ExportFault),
    Assembly(AssemblyError),
    Build(MastForestBuilderError),
}

/// How a library was made: the builder at the end, and the exports in its terms.
pub ghost struct LibrarySteps {
    pub end: MastForestBuilder,
    pub pending: Seq<PendingPackageExport>,
}

/// The public items of modules were compiled and exported, and their advice was taken over.
pub open spec fn library_assembled(
    a: Assembler,
    modules: Seq<Module>,
    list: Seq<u32>,
    start: MastForestBuilder,
    steps: LibrarySteps,
) -> bool {
    let items = public_items(modules, list, list.len());
    &&& builder_ok(steps.end)
    &&& extends(start@, steps.end@)
    &&& keeps_imports(a.libraries, start@, steps.end@)
    &&& exports_items(steps.end.registry.procedures@, modules, items, steps.pending)
    &&& all_exported(a, modules, items, state_of(start), state_of(steps.end))
    &&& with_advice(start.registry.advice_map@, modules, list, list.len()) == Ok::<
        AdviceModel,
        Word,
    >(steps.end.registry.advice_map@)
}

/// A library is the finished builder, with the exports in terms of its forest. The code of every
/// procedure that is exported is a root of the forest.
pub open spec fn product_of(steps: LibrarySteps, product: LibraryProduct) -> bool {
    &&& is_built(steps.end, product.built)
    &&& all_finished(
        product.built.node_id_by_ref@,
        product.built.graph.source_id_by_ref@,
        steps.pending,
        product.exports@,
    )
    &&& forall|i: int|
        0 <= i < product.exports@.len() ==> match #[trigger] product.exports@[i] {
            PackageExport::Procedure(e) => is_found(
                product.built.mast_forest@,
                e,
                digest_of_ref(steps.end@, (steps.pending[i]->Procedure_0).node_ref),
            ),
            _ => true,
        }
}

/// Why the public items of modules cannot be assembled.
pub open spec fn assembly_refused(
    a: Assembler,
    modules: Seq<Module>,
    list: Seq<u32>,
    start: MastForestBuilder,
    end: MastForestBuilder,
    e: AssemblyError,
) -> bool {
    match e {
        AssemblyError::AdviceConflict { key } => advice_stopped(
            a,
            modules,
            list,
            start.registry.advice_map@,
            state_of(start),
            state_of(end),
            key,
        ),
        _ => exports_failed(
            a,
            modules,
            public_items(modules, list, list.len()),
            state_of(start),
            state_of(end),
            e,
        ),
    }
}

/// A library was made of modules.
pub open spec fn library_made(
    a: Assembler,
    modules: Seq<Module>,
    list: Seq<u32>,
    start: MastForestBuilder,
    product: LibraryProduct,
) -> bool {
    &&& exists|steps: LibrarySteps| #[trigger]
        library_assembled(a, modules, list, start, steps) && product_of(steps, product)
    &&& are_package_modules(modules, list, product.modules@)
}

/// Why no library can be made of modules whose types pass.
pub open spec fn library_refused(
    a: Assembler,
    modules: Seq<Module>,
    list: Seq<u32>,
    start: MastForestBuilder,
    e: ProductError,
) -> bool {
    match e {
        ProductError::Visibility(_) => false,
        ProductError::Assembly(e) => exists|end: MastForestBuilder| #[trigger]
            assembly_refused(a, modules, list, start, end, e),
        ProductError::Build(e) => exists|steps: LibrarySteps| #[trigger]
            library_assembled(a, modules, list, start, steps) && build_refused(steps.end, e),
    }
}

/// The code of a procedure that is exported is a root.
proof fn lemma_exported_root(
    builder: MastForestBuilder,
    modules: Seq<Module>,
    items: Seq<PublicItem>,
    pending: Seq<PendingPackageExport>,
    i: int,
)
    requires
        builder_ok(builder),
        exports_items(builder.registry.procedures@, modules, items, pending),
        0 <= i < pending.len(),
        pending[i] is Procedure,
    ensures
        builder@.roots.contains((pending[i]->Procedure_0).node_ref),
{
    reveal(crate::exports::is_item_export);
    reveal(crate::exports::stands_for);
    let procs = builder.registry.procedures@;
    assert(crate::exports::is_item_export(procs, modules, items, pending[i]));
    let j = choose|j: int|
        0 <= j < items.len() && crate::exports::stands_for(
            procs,
            modules,
            #[trigger] items[j],
            pending[i],
        );
    let gid = items[j].gid;
    assert(crate::exports::stands_for(procs, modules, items[j], pending[i]));
    assert(crate::exports::exports_entry(procs, gid, pending[i]->Procedure_0));
    lemma_procedure_index(procs, gid, procs.len());
    let p = procedure_index(procs, gid, procs.len())->0 as int;
    assert(builder@.roots.contains(procs[p].procedure.body_node_ref));
}

impl Assembler {
    /// Makes a library of modules: compiles and exports their public items, finishes the forest,
    /// and lists the modules that it has.
    pub fn build_library_product(
        &self,
        modules: &Vec<Module>,
        list: &Vec<u32>,
        builder: MastForestBuilder,
    ) -> (res: Result<LibraryProduct, ProductError>)
        requires
            self.wf(),
            builder_ok(builder),
            exportable(modules@),
            modules@.len() <= u32::MAX,
            distinct_modules(modules@),
            forall|i: int| 0 <= i < list@.len() ==> (#[trigger] list@[i]) < modules@.len(),
        ensures
            match res {
                Ok(product) => library_made(*self, modules@, list@, builder, product),
                Err(e) => library_refused(*self, modules@, list@, builder, e),
            },
    {
        let ghost start = builder;
        let mut builder = builder;
        let pending = match self.assemble_library_product(modules, list, &mut builder) {
            Ok(pending) => pending,
            Err(e) => {
                assert(assembly_refused(*self, modules@, list@, start, builder, e));
                return Err(ProductError::Assembly(e));
            },
        };
        let ghost end = builder;
        let ghost steps = LibrarySteps { end, pending: pending@ };
        assert(library_assembled(*self, modules@, list@, start, steps));
        let built = match builder.build() {
            Ok(built) => built,
            Err(e) => {
                return Err(ProductError::Build(e));
            },
        };
        let ghost items = public_items(modules@, list@, list@.len());
        proof {
            let ids = built.node_id_by_ref@;
            let sources = built.graph.source_id_by_ref@;
            assert forall|i: int|
                0 <= i < pending@.len() && (#[trigger] pending@[i]) is Procedure implies !is_lost(
                ids,
                pending@[i],
                (pending@[i]->Procedure_0).node_ref,
            ) by {
                lemma_exported_root(end, modules@, items, pending@, i);
                law_exported_procedures_are_found(
                    end@,
                    built.mast_forest@,
                    ids,
                    sources,
                    pending@[i]->Procedure_0,
                );
            }
        }
        let exports = match finish_exports(pending, &built) {
            Ok(exports) => exports,
            Err(e) => {
                proof {
                    let node_ref = e->NotFinalized_node_ref;
                    let i = choose|i: int|
                        0 <= i < steps.pending.len() && #[trigger] is_lost(
                            built.node_id_by_ref@,
                            steps.pending[i],
                            node_ref,
                        );
                    assert(steps.pending[i] is Procedure);
                }
                assert(false);
                return Err(ProductError::Assembly(e));
            },
        };
        let entries = package_modules(modules, list);
        let product = LibraryProduct { built, exports, modules: entries };
        proof {
            let ids = built.node_id_by_ref@;
            let sources = built.graph.source_id_by_ref@;
            assert forall|i: int| 0 <= i < exports@.len() implies match #[trigger] exports@[i] {
                PackageExport::Procedure(e) => is_found(
                    built.mast_forest@,
                    e,
                    digest_of_ref(end@, (steps.pending[i]->Procedure_0).node_ref),
                ),
                _ => true,
            } by {
                assert(finished_as(ids, sources, steps.pending[i], exports@[i]));
                if exports@[i] is Procedure {
                    assert(steps.pending[i] is Procedure);
                    lemma_exported_root(end, modules@, items, steps.pending, i);
                    law_exported_procedures_are_found(
                        end@,
                        built.mast_forest@,
                        ids,
                        sources,
                        steps.pending[i]->Procedure_0,
                    );
                }
            }
            assert(product_of(steps, product));
        }
        Ok(product)
    }
}

/// The types of modules, and what paths in them lead to.
pub open spec fn type_graph(modules: Seq<Module>, refs: Seq<TypeReference>) -> TypeGraph {
    TypeGraph { modules, refs, types: all_types(modules, modules.len()) }
}

impl Assembler {
    /// Makes a library of modules, unless what they export rests on types that they keep to
    /// themselves. `refs` says what the paths in type expressions lead to.
    pub fn assemble_library_modules(
        &self,
        modules: &Vec<Module>,
        refs: &Vec<TypeReference>,
        list: &Vec<u32>,
        builder: MastForestBuilder,
    ) -> (res: Result<LibraryProduct, ProductError>)
        requires
            self.wf(),
            builder_ok(builder),
            exportable(modules@),
            modules@.len() <= u32::MAX,
            distinct_modules(modules@),
            forall|i: int| 0 <= i < list@.len() ==> (#[trigger] list@[i]) < modules@.len(),
        ensures
            ({
                let fault = modules_fault(type_graph(modules@, refs@), list@, list@.len());
                match res {
                    Ok(product) => {
                        &&& fault is None
                        &&& library_made(*self, modules@, list@, builder, product)
                    },
                    Err(ProductError::Visibility(f)) => fault == Some(f),
                    Err(e) => fault is None && library_refused(*self, modules@, list@, builder, e),
                }
            }),
    {
        let checker = TypeChecker::new(modules, refs);
        match checker.verify_exported_signature_type_visibility(list) {
            Ok(_) => self.build_library_product(modules, list, builder),
            Err(f) => Err(ProductError::Visibility(f)),
        }
    }
}

/// A library exports no private type: none of the items that its modules offer is one, and none of
/// them rests on one.
pub proof fn law_libraries_export_no_private_type(
    modules: Seq<Module>,
    refs: Seq<TypeReference>,
    list: Seq<u32>,
    i: int,
    gid: GlobalItemIndex,
)
    requires
        modules_fault(type_graph(modules, refs), list, list.len()) is None,
        0 <= i < list.len(),
        offers(type_graph(modules, refs), list[i], gid),
    ensures
        ({
            let g = type_graph(modules, refs);
            &&& symbol_at(modules, gid).item is Type ==> !(symbol_at(
                modules,
                gid,
            ).visibility is Private)
            &&& forall|e: TypeExpr, chain: Seq<int>|
                exports_type(g, gid, e) && is_type_chain(g, chain) && #[trigger] refers(
                    g,
                    gid.module,
                    e,
                    chain[0],
                ) ==> g.is_public(#[trigger] chain.last())
        }),
{
    law_offered_items_rest_on_public_types(type_graph(modules, refs), list, i, gid);
}

// PROGRAMS
// ================================================================================================

/// The first of the first `k` symbols with a name.
pub open spec fn symbol_index(module: Module, name: Seq<char>, k: nat) -> Option<nat>
    decreases k,
{
    if k == 0 {
        None
    } else {
        match symbol_index(module, name, (k - 1) as nat) {
            Some(i) => Some(i),
            None => if module.symbols@[k - 1].name@ == name {
                Some((k - 1) as nat)
            } else {
                None
            },
        }
    }
}

/// The entry point of a module.
pub open spec fn entrypoint_of(modules: Seq<Module>, m: u32, name: Seq<char>) -> Option<
    GlobalItemIndex,
> {
    let module = modules[m as int];
    match symbol_index(module, name, module.symbols@.len()) {
        Some(i) => if module.symbols@[i as int].item is Procedure {
            Some(GlobalItemIndex { module: m, index: i as u32 })
        } else {
            None
        },
        None => None,
    }
}

/// The entry point of a module and everything that it reaches were compiled, and its advice was
/// taken over.
pub open spec fn program_assembled(
    a: Assembler,
    modules: Seq<Module>,
    m: u32,
    name: Seq<char>,
    start: MastForestBuilder,
    end: MastForestBuilder,
    body: MastNodeUse,
) -> bool {
    let gid = entrypoint_of(modules, m, name)->0;
    let source = symbol_at(modules, gid).item->Procedure_0;
    &&& entrypoint_of(modules, m, name) is Some
    &&& builder_ok(end)
    &&& extends(start@, end@)
    &&& keeps_imports(a.libraries, start@, end@)
    &&& is_known(end.registry.procedures@, gid)
    &&& body == entry_of(end.registry.procedures@, gid).body()
    &&& with_module_advice(start.registry.advice_map@, modules[m as int]) == Ok::<
        AdviceModel,
        Word,
    >(end.registry.advice_map@)
    &&& worklist_done(
        a,
        modules,
        source.reaches@,
        SubgraphRoot { proc_id: gid, is_program_entrypoint: true },
        state_of(start),
        state_of(end),
        source.reaches@.len(),
    )
}

/// Why a program cannot be compiled.
pub open spec fn program_refused(
    a: Assembler,
    modules: Seq<Module>,
    m: u32,
    name: Seq<char>,
    start: MastForestBuilder,
    end: MastForestBuilder,
    e: AssemblyError,
) -> bool {
    let entrypoint = entrypoint_of(modules, m, name);
    let advice = with_module_advice(start.registry.advice_map@, modules[m as int]);
    match e {
        AssemblyError::MissingEntrypoint => entrypoint is None,
        AssemblyError::AdviceConflict { key } => entrypoint is Some && advice == Err::<
            AdviceModel,
            Word,
        >(key),
        _ => entrypoint is Some && advice is Ok && subgraph_failed(
            a,
            modules,
            SubgraphRoot { proc_id: entrypoint->0, is_program_entrypoint: true },
            state_of(start),
            state_of(end),
            e,
        ),
    }
}

/// A program: its forest with debug information, and its entry point in it.
pub struct ProgramProduct {
    pub built: BuiltMastForest,
    pub entry_node: MastNodeId,
    pub entry_source: Option<u32>,
}

/// A program is the finished builder, with the entry point in terms of its forest: a root, with the
/// digest that the builder has for it.
pub open spec fn program_of(
    end: MastForestBuilder,
    body: MastNodeUse,
    product: ProgramProduct,
) -> bool {
    let forest = product.built.mast_forest@;
    &&& is_built(end, product.built)
    &&& final_node(product.built.node_id_by_ref@, body.node_ref) == Some(product.entry_node.0)
    &&& product.entry_source == final_source(
        product.built.graph.source_id_by_ref@,
        Some(body.source_ref),
    )
    &&& product.entry_node.0 < forest.nodes.len()
    &&& forest.nodes[product.entry_node.0 as int].digest == digest_of_ref(end@, body.node_ref)
    &&& forest.roots.contains(product.entry_node)
}

/// How a program was made: the builder at the end, and the body of the entry point in its terms.
pub ghost struct ProgramSteps {
    pub end: MastForestBuilder,
    pub body: MastNodeUse,
}

fn find_symbol(module: &Module, name: &String) -> (at: Option<usize>)
    ensures
        match at {
            Some(i) => i < module.symbols@.len() && symbol_index(
                *module,
                name@,
                module.symbols@.len(),
            ) == Some(i as nat),
            None => symbol_index(*module, name@, module.symbols@.len()) is None,
        },
{
    let mut found: Option<usize> = None;
    let mut i: usize = 0;
    while i < module.symbols.len()
        invariant
            i <= module.symbols@.len(),
            match found {
                Some(k) => k < i && symbol_index(*module, name@, i as nat) == Some(k as nat),
                None => symbol_index(*module, name@, i as nat) is None,
            },
        decreases module.symbols@.len() - i,
    {
        if found.is_none() && module.symbols[i].name == *name {
            found = Some(i);
        }
        i += 1;
    }
    found
}

impl Assembler {
    /// Compiles a program: the entry point of a module and everything that it reaches. The body of
    /// the entry point is returned.
    pub fn assemble_executable_modules(
        &self,
        modules: &Vec<Module>,
        m: u32,
        entry_name: &String,
        builder: &mut MastForestBuilder,
    ) -> (res: Result<MastNodeUse, AssemblyError>)
        requires
            self.wf(),
            builder_ok(*old(builder)),
            exportable(modules@),
            m < modules@.len(),
        ensures
            match res {
                Ok(body) => program_assembled(
                    *self,
                    modules@,
                    m,
                    entry_name@,
                    *old(builder),
                    *final(builder),
                    body,
                ),
                Err(e) => program_refused(
                    *self,
                    modules@,
                    m,
                    entry_name@,
                    *old(builder),
                    *final(builder),
                    e,
                ),
            },
    {
        let module = &modules[m as usize];
        assert(modules@[m as int].symbols@.len() <= u32::MAX);
        assert(match modules@[m as int].advice_map {
            Some(map) => map.wf(),
            None => true,
        });
        let index: usize = match find_symbol(module, entry_name) {
            Some(i) => i,
            None => {
                return Err(AssemblyError::MissingEntrypoint);
            },
        };
        let is_procedure = match &module.symbols[index].item {
            SymbolItem::Procedure(_) => true,
            _ => false,
        };
        if !is_procedure {
            return Err(AssemblyError::MissingEntrypoint);
        }
        let gid = GlobalItemIndex { module: m, index: index as u32 };
        match merge_module_advice(builder, module) {
            Ok(_) => {},
            Err(key) => {
                return Err(AssemblyError::AdviceConflict { key });
            },
        }
        assert(has_item(modules@, gid));
        match self.compile_subgraph(modules, SubgraphRoot::with_entrypoint(gid), builder) {
            Ok(_) => {},
            Err(e) => {
                proof {
                    lemma_subgraph_failure_kind(
                        *self,
                        modules@,
                        SubgraphRoot { proc_id: gid, is_program_entrypoint: true },
                        state_of(*old(builder)),
                        state_of(*builder),
                        e,
                    );
                }
                return Err(e);
            },
        }
        match builder.get_procedure(gid) {
            Some(procedure) => Ok(procedure.body_node_use()),
            None => {
                assert(false);
                Err(AssemblyError::MissingEntrypoint)
            },
        }
    }

    /// Makes a program: compiles the entry point of a module and everything that it reaches,
    /// finishes the forest, and finds the entry point in it.
    pub fn build_program_product(
        &self,
        modules: &Vec<Module>,
        m: u32,
        entry_name: &String,
        builder: MastForestBuilder,
    ) -> (res: Result<ProgramProduct, ProductError>)
        requires
            self.wf(),
            builder_ok(builder),
            exportable(modules@),
            m < modules@.len(),
        ensures
            match res {
                Ok(product) => exists|steps: ProgramSteps|
                    #[trigger] program_of(steps.end, steps.body, product) && program_assembled(
                        *self,
                        modules@,
                        m,
                        entry_name@,
                        builder,
                        steps.end,
                        steps.body,
                    ),
                Err(ProductError::Assembly(e)) => exists|end: MastForestBuilder| #[trigger]
                    program_refused(*self, modules@, m, entry_name@, builder, end, e),
                Err(ProductError::Build(e)) => exists|steps: ProgramSteps| #[trigger]
                    program_assembled(
                        *self,
                        modules@,
                        m,
                        entry_name@,
                        builder,
                        steps.end,
                        steps.body,
                    ) && build_refused(steps.end, e),
                Err(ProductError::Visibility(_)) => false,
            },
    {
        let ghost start = builder;
        let mut builder = builder;
        let body = match self.assemble_executable_modules(modules, m, entry_name, &mut builder) {
            Ok(body) => body,
            Err(e) => {
                assert(program_refused(*self, modules@, m, entry_name@, start, builder, e));
                return Err(ProductError::Assembly(e));
            },
        };
        let ghost end = builder;
        let ghost steps = ProgramSteps { end, body };
        assert(program_assembled(
            *self,
            modules@,
            m,
            entry_name@,
            start,
            steps.end,
            steps.body,
        ));
        let built = match builder.build() {
            Ok(built) => built,
            Err(e) => {
                return Err(ProductError::Build(e));
            },
        };
        proof {
            let procs = end.registry.procedures@;
            let gid = entrypoint_of(modules@, m, entry_name@)->0;
            lemma_procedure_index(procs, gid, procs.len());
            let p = procedure_index(procs, gid, procs.len())->0 as int;
            assert(end@.roots.contains(procs[p].procedure.body_node_ref));
            law_roots_are_found(
                end@,
                built.mast_forest@,
                built.node_id_by_ref@,
                body.node_ref,
            );
        }
        let r: usize = body.node_ref.0 as usize;
        let entry: Option<u32> = if r < built.node_id_by_ref.len() {
            built.node_id_by_ref[r]
        } else {
            None
        };
        let entry_node = match entry {
            Some(node) => MastNodeId(node),
            None => {
                assert(false);
                return Err(
                    ProductError::Assembly(AssemblyError::NotFinalized { node_ref: body.node_ref }),
                );
            },
        };
        let s: usize = body.source_ref.0 as usize;
        let entry_source: Option<u32> = if s < built.graph.source_id_by_ref.len() {
            built.graph.source_id_by_ref[s]
        } else {
            None
        };
        let product = ProgramProduct { built, entry_node, entry_source };
        assert(program_of(steps.end, steps.body, product));
        Ok(product)
    }
}

// PACKAGES
// ================================================================================================

/// What a package is made for.
#[derive(Clone, Copy, PartialEq, Eq, Structural, Debug)]
pub enum TargetType {
    Kernel,
    Executable,
    Library,
}

/// What linking a package comes to.
#[derive(Clone, Copy, PartialEq, Eq, Structural, Debug)]
pub enum PackageLink {
    Kernel,
    Library,
}

/// Why a package cannot be linked.
#[derive(Clone, Copy, PartialEq, Eq, Structural, Debug)]
pub enum PackageLinkError {
    /// Another kernel is linked.
    DuplicateKernel,
    /// Programs cannot be linked.
    Executable,
}

impl Assembler {
    /// Decides how a package is linked: as the kernel, unless there is one, or as a library.
    pub fn link_package(&self, kind: TargetType) -> (res: Result<PackageLink, PackageLinkError>)
        ensures
            res == (match kind {
                TargetType::Kernel => if self.kernel@.len() > 0 {
                    Err::<PackageLink, PackageLinkError>(PackageLinkError::DuplicateKernel)
                } else {
                    Ok(PackageLink::Kernel)
                },
                TargetType::Executable => Err(PackageLinkError::Executable),
                TargetType::Library => Ok(PackageLink::Library),
            }),
    {
        match kind {
            TargetType::Kernel => if self.kernel.len() > 0 {
                Err(PackageLinkError::DuplicateKernel)
            } else {
                Ok(PackageLink::Kernel)
            },
            TargetType::Executable => Err(PackageLinkError::Executable),
            TargetType::Library => Ok(PackageLink::Library),
        }
    }
}

proof fn lemma_symbol_index(module: Module, name: Seq<char>, k: nat)
    requires
        k <= module.symbols@.len(),
    ensures
        match symbol_index(module, name, k) {
            Some(i) => i < k && module.symbols@[i as int].name@ == name && forall|j: int|
                0 <= j < i ==> (#[trigger] module.symbols@[j]).name@ != name,
            None => forall|j: int| 0 <= j < k ==> (#[trigger] module.symbols@[j]).name@ != name,
        },
    decreases k,
{
    if k > 0 {
        lemma_symbol_index(module, name, (k - 1) as nat);
    }
}

/// The entry point of a program is the procedure of its module that has the name of entry points;
/// there is none if no symbol of the module has the name, or the one that has it is no procedure.
pub proof fn law_entrypoints_have_the_name(modules: Seq<Module>, m: u32, name: Seq<char>)
    requires
        m < modules.len(),
        modules[m as int].symbols@.len() <= u32::MAX,
        forall|i: int, j: int|
            0 <= i < j < modules[m as int].symbols@.len() ==> (
            #[trigger] modules[m as int].symbols@[i]).name@ != (
            #[trigger] modules[m as int].symbols@[j]).name@,
    ensures
        match entrypoint_of(modules, m, name) {
            Some(gid) => {
                &&& gid.module == m
                &&& has_item(modules, gid)
                &&& symbol_at(modules, gid).name@ == name
                &&& symbol_at(modules, gid).item is Procedure
            },
            None => forall|i: int|
                0 <= i < modules[m as int].symbols@.len() && (
                #[trigger] modules[m as int].symbols@[i]).name@ == name
                    ==> !(modules[m as int].symbols@[i].item is Procedure),
        },
{
    let module = modules[m as int];
    lemma_symbol_index(module, name, module.symbols@.len());
    if let Some(k) = symbol_index(module, name, module.symbols@.len()) {
        assert forall|i: int|
            0 <= i < module.symbols@.len() && (#[trigger] module.symbols@[i]).name@ == name implies i
            == k by {
            if i < k {
                assert(module.symbols@[i].name@ != module.symbols@[k as int].name@);
            } else if i > k {
                assert(module.symbols@[k as int].name@ != module.symbols@[i].name@);
            }
        }
    }
}

/// The entry point of a program is compiled as one, and nothing else of the program is.
pub proof fn law_only_the_entry_point_is_one(
    a: Assembler,
    modules: Seq<Module>,
    m: u32,
    name: Seq<char>,
    start: MastForestBuilder,
    end: MastForestBuilder,
    body: MastNodeUse,
)
    requires
        program_assembled(a, modules, m, name, start, end, body),
    ensures
        exists|root: SubgraphRoot, list: Seq<GlobalItemIndex>| #[trigger]
            worklist_done(a, modules, list, root, state_of(start), state_of(end), list.len())
                && forall|gid: GlobalItemIndex| #[trigger]
                root.is_entry(gid) <==> entrypoint_of(modules, m, name) == Some(gid),
{
    let gid = entrypoint_of(modules, m, name)->0;
    let root = SubgraphRoot { proc_id: gid, is_program_entrypoint: true };
    let list = (symbol_at(modules, gid).item->Procedure_0).reaches@;
    assert(worklist_done(a, modules, list, root, state_of(start), state_of(end), list.len()));
    assert forall|other: GlobalItemIndex| #[trigger]
        root.is_entry(other) <==> entrypoint_of(modules, m, name) == Some(other) by {}
}

/// The advice of a product holds what it started with and what its modules give, and nothing else.
pub proof fn law_advice_comes_from_the_modules(
    advice: AdviceModel,
    modules: Seq<Module>,
    list: Seq<u32>,
    k: nat,
    key: Word,
    values: Seq<crate::felt::Felt>,
)
    requires
        k <= list.len(),
        crate::forest::sorted(advice),
        forall|j: int|
            0 <= j < list.len() ==> (modules[(#[trigger] list[j]) as int].advice_map matches Some(map)
                ==> crate::forest::sorted(map@)),
        with_advice(advice, modules, list, k) is Ok,
    ensures
        crate::forest::sorted(with_advice(advice, modules, list, k)->Ok_0),
        crate::procedures::holds(with_advice(advice, modules, list, k)->Ok_0, key, values) <==> crate::procedures::holds(
            advice,
            key,
            values,
        ) || exists|j: int|
            0 <= j < k && (modules[(#[trigger] list[j]) as int].advice_map matches Some(map)
                && crate::procedures::holds(map@, key, values)),
    decreases k,
{
    if k > 0 {
        law_advice_comes_from_the_modules(advice, modules, list, (k - 1) as nat, key, values);
        let before = with_advice(advice, modules, list, (k - 1) as nat)->Ok_0;
        let module = modules[list[k - 1] as int];
        if let Some(map) = module.advice_map {
            crate::procedures::law_merged_advice(before, map@, key, values);
        }
    }
}

/// A finished export is the pending one: of the same kind, under the same path and with the same
/// contents; that of a procedure has the digest that was pending, and the finished node and
/// occurrence of those that were pending.
pub proof fn law_finished_exports_keep_everything(
    node_id_by_ref: Seq<Option<u32>>,
    source_id_by_ref: Seq<Option<u32>>,
    pending: PendingPackageExport,
    export: PackageExport,
)
    requires
        finished_as(node_id_by_ref, source_id_by_ref, pending, export),
    ensures
        (pending is Procedure) == (export is Procedure),
        (pending is Constant) == (export is Constant),
        (pending is Type) == (export is Type),
        pending matches PendingPackageExport::Procedure(p) ==> (export matches
            PackageExport::Procedure(e) && e.path@ == p.path@ && e.digest == p.digest
            && signature_model(e.signature) == signature_model(p.signature) && p.node_ref.0
            < node_id_by_ref.len() && node_id_by_ref[p.node_ref.0 as int] == Some(e.node.0)
            && (e.source_node is Some ==> (p.source_ref matches Some(s) && s.0
            < source_id_by_ref.len() && source_id_by_ref[s.0 as int] == e.source_node)) && (
        p.source_ref matches Some(s) && s.0 < source_id_by_ref.len() && source_id_by_ref[s.0 as int]
            is Some ==> e.source_node is Some)),
        pending matches PendingPackageExport::Constant { path, value } ==> (export matches
            PackageExport::Constant { path: p, value: v } && p@ == path@ && v@ == value@),
        pending matches PendingPackageExport::Type { path, ty } ==> (export matches
            PackageExport::Type { path: p, ty: t } && p@ == path@ && t@ == ty@),
{
}

} // verus!
