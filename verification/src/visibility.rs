//! What a library offers may not rest on types that it keeps to itself.

use vstd::prelude::*;

use crate::assembler::{has_item, symbol_at, Module, Symbol, SymbolItem};
use crate::path::{GlobalItemIndex, Path, SourceSpan, SymbolPath};
use crate::type_decl::{TypeDecl, Variant};
use crate::type_expr::{FunctionType, StructField, TypeExpr};

verus! {

/// What a path leads to in a module: an item, or something that is not in the modules.
pub struct TypeReference {
    pub module: u32,
    pub path: Path,
    pub target: Option<GlobalItemIndex>,
}

/// Why a type may not be used in what is exported.
#[derive(Clone, Copy, PartialEq, Eq, Structural, Debug)]
pub enum TypeFault {
    /// A private type is used.
    Private { span: SourceSpan, defined: SourceSpan },
    /// A path leads nowhere.
    Undefined { span: SourceSpan },
}

/// Why an item may not be exported.
#[derive(Clone, Copy, PartialEq, Eq, Structural, Debug)]
pub enum ExportFault {
    /// A private type is used in the signature of a procedure.
    PrivateTypeInExportedSignature { span: SourceSpan, defined: SourceSpan },
    /// A private type is exported, or used in a type that is.
    PrivateTypeInExportedType { span: SourceSpan, defined: SourceSpan },
    /// A path leads nowhere.
    Undefined { span: SourceSpan },
}

/// What a type is used in.
#[derive(Clone, Copy, PartialEq, Eq, Structural, Debug)]
pub enum ExportedTypeUse {
    ProcedureSignature,
    TypeDeclaration,
}

impl ExportedTypeUse {
    /// The fault of an item that uses a type.
    pub open spec fn fault(self, fault: TypeFault) -> ExportFault {
        match fault {
            TypeFault::Undefined { span } => ExportFault::Undefined { span },
            TypeFault::Private { span, defined } => match self {
                ExportedTypeUse::ProcedureSignature => {
                    ExportFault::PrivateTypeInExportedSignature { span, defined }
                },
                ExportedTypeUse::TypeDeclaration => {
                    ExportFault::PrivateTypeInExportedType { span, defined }
                },
            },
        }
    }

    /// The fault of an item that uses a type.
    pub fn private_type_error(self, fault: TypeFault) -> (res: ExportFault)
        ensures
            res == self.fault(fault),
    {
        match fault {
            TypeFault::Undefined { span } => ExportFault::Undefined { span },
            TypeFault::Private { span, defined } => match self {
                ExportedTypeUse::ProcedureSignature => {
                    ExportFault::PrivateTypeInExportedSignature { span, defined }
                },
                ExportedTypeUse::TypeDeclaration => {
                    ExportFault::PrivateTypeInExportedType { span, defined }
                },
            },
        }
    }
}

// LOOKING UP
// ================================================================================================

/// The first of the first `k` references that has a path in a module.
pub open spec fn reference_index(
    refs: Seq<TypeReference>,
    module: u32,
    path: SymbolPath,
    k: nat,
) -> Option<nat>
    decreases k,
{
    if k == 0 {
        None
    } else {
        match reference_index(refs, module, path, (k - 1) as nat) {
            Some(i) => Some(i),
            None => if refs[k - 1].module == module && refs[k - 1].path@ == path {
                Some((k - 1) as nat)
            } else {
                None
            },
        }
    }
}

/// The type items among the first `k` symbols of module `m`.
pub open spec fn module_types(modules: Seq<Module>, m: u32, k: nat) -> Seq<GlobalItemIndex>
    decreases k,
{
    if k == 0 {
        Seq::empty()
    } else {
        let before = module_types(modules, m, (k - 1) as nat);
        if modules[m as int].symbols@[k - 1].item is Type {
            before.push(GlobalItemIndex { module: m, index: (k - 1) as u32 })
        } else {
            before
        }
    }
}

/// The type items of the first `k` modules.
pub open spec fn all_types(modules: Seq<Module>, k: nat) -> Seq<GlobalItemIndex>
    decreases k,
{
    if k == 0 {
        Seq::empty()
    } else {
        all_types(modules, (k - 1) as nat) + module_types(
            modules,
            (k - 1) as u32,
            modules[k - 1].symbols@.len(),
        )
    }
}

/// The place of an item among the first `k` types.
pub open spec fn type_index(types: Seq<GlobalItemIndex>, gid: GlobalItemIndex, k: nat) -> Option<
    nat,
>
    decreases k,
{
    if k == 0 {
        None
    } else {
        match type_index(types, gid, (k - 1) as nat) {
            Some(i) => Some(i),
            None => if types[k - 1] == gid {
                Some((k - 1) as nat)
            } else {
                None
            },
        }
    }
}

proof fn lemma_type_index(types: Seq<GlobalItemIndex>, gid: GlobalItemIndex, k: nat)
    requires
        k <= types.len(),
    ensures
        match type_index(types, gid, k) {
            Some(i) => i < k && types[i as int] == gid,
            None => true,
        },
    decreases k,
{
    if k > 0 {
        lemma_type_index(types, gid, (k - 1) as nat);
    }
}

/// Modules whose types are checked: what paths lead to, and where the types are.
pub ghost struct TypeGraph {
    pub modules: Seq<Module>,
    pub refs: Seq<TypeReference>,
    pub types: Seq<GlobalItemIndex>,
}

/// What a reference leads to.
pub ghost enum RefTarget {
    Undefined,
    /// Something that is no type of the modules.
    Other,
    Type(int),
}

impl TypeGraph {
    pub open spec fn wf(self) -> bool {
        forall|i: int|
            0 <= i < self.types.len() ==> has_item(self.modules, #[trigger] self.types[i])
                && symbol_at(self.modules, self.types[i]).item is Type
    }

    pub open spec fn target(self, module: u32, path: SymbolPath) -> RefTarget {
        match reference_index(self.refs, module, path, self.refs.len()) {
            None => RefTarget::Undefined,
            Some(i) => match self.refs[i as int].target {
                None => RefTarget::Other,
                Some(gid) => match type_index(self.types, gid, self.types.len()) {
                    None => RefTarget::Other,
                    Some(t) => RefTarget::Type(t as int),
                },
            },
        }
    }

    pub open spec fn symbol(self, t: int) -> Symbol {
        symbol_at(self.modules, self.types[t])
    }

    pub open spec fn decl(self, t: int) -> TypeDecl {
        self.symbol(t).item->decl
    }

    pub open spec fn module(self, t: int) -> u32 {
        self.types[t].module
    }

    /// Where a type is named.
    pub open spec fn defined(self, t: int) -> SourceSpan {
        name_span(self.decl(t))
    }

    pub open spec fn is_public(self, t: int) -> bool {
        self.symbol(t).visibility is Public
    }
}

pub open spec fn name_span(decl: TypeDecl) -> SourceSpan {
    match decl {
        TypeDecl::Alias(ty) => ty.name.span,
        TypeDecl::Enum(ty) => ty.name.span,
    }
}

// WHAT IS REFUSED
// ================================================================================================

/// How many of the first `k` types are not being visited.
pub open spec fn unvisited(visiting: Seq<bool>, k: nat) -> nat
    decreases k,
{
    if k == 0 {
        0
    } else {
        unvisited(visiting, (k - 1) as nat) + if visiting[k - 1] {
            0nat
        } else {
            1nat
        }
    }
}

proof fn lemma_unvisited(visiting: Seq<bool>, t: int, k: nat)
    requires
        0 <= t < visiting.len(),
        k <= visiting.len(),
        !visiting[t],
    ensures
        unvisited(visiting.update(t, true), k) == unvisited(visiting, k) - if t < k {
            1int
        } else {
            0int
        },
    decreases k,
{
    if k > 0 {
        lemma_unvisited(visiting, t, (k - 1) as nat);
    }
}

pub open spec fn left(visiting: Seq<bool>) -> nat {
    unvisited(visiting, visiting.len())
}

/// The first thing that is wrong with exporting a type expression of a module. Types that are being
/// visited are not looked at again.
pub open spec fn expr_fault(
    g: TypeGraph,
    visiting: Seq<bool>,
    module: u32,
    e: TypeExpr,
) -> Option<TypeFault>
    decreases left(visiting), 0nat, e, 0nat,
    via expr_fault_decreases
{
    match e {
        TypeExpr::Primitive(_, _) => None,
        TypeExpr::Ptr(ty) => expr_fault(g, visiting, module, *ty.pointee),
        TypeExpr::Array(ty) => expr_fault(g, visiting, module, *ty.elem),
        TypeExpr::Struct(ty) => fields_fault(g, visiting, module, ty.fields@, ty.fields@.len()),
        TypeExpr::Ref(span, path) => match g.target(module, path@) {
            RefTarget::Undefined => Some(TypeFault::Undefined { span }),
            RefTarget::Other => None,
            RefTarget::Type(t) => if !g.is_public(t) {
                Some(TypeFault::Private { span, defined: g.defined(t) })
            } else if 0 <= t < visiting.len() && !visiting[t] {
                decl_fault(g, visiting.update(t, true), g.module(t), g.decl(t))
            } else {
                None
            },
        },
    }
}

pub open spec fn fields_fault(
    g: TypeGraph,
    visiting: Seq<bool>,
    module: u32,
    fields: Seq<StructField>,
    k: nat,
) -> Option<TypeFault>
    decreases left(visiting), 0nat, fields, k,
    via fields_fault_decreases
{
    if k == 0 || k > fields.len() {
        None
    } else {
        match fields_fault(g, visiting, module, fields, (k - 1) as nat) {
            Some(e) => Some(e),
            None => expr_fault(g, visiting, module, fields[k - 1].ty),
        }
    }
}

/// The first thing that is wrong with exporting a declared type.
pub open spec fn decl_fault(
    g: TypeGraph,
    visiting: Seq<bool>,
    module: u32,
    decl: TypeDecl,
) -> Option<TypeFault>
    decreases left(visiting), 2nat, decl, 0nat,
    via decl_fault_decreases
{
    match decl {
        TypeDecl::Alias(alias) => expr_fault(g, visiting, module, alias.ty),
        TypeDecl::Enum(ty) => variants_fault(
            g,
            visiting,
            module,
            ty.variants@,
            ty.variants@.len(),
        ),
    }
}

pub open spec fn variants_fault(
    g: TypeGraph,
    visiting: Seq<bool>,
    module: u32,
    variants: Seq<Variant>,
    k: nat,
) -> Option<TypeFault>
    decreases left(visiting), 1nat, variants, k,
    via variants_fault_decreases
{
    if k == 0 || k > variants.len() {
        None
    } else {
        match variants_fault(g, visiting, module, variants, (k - 1) as nat) {
            Some(e) => Some(e),
            None => match variants[k - 1].value_ty {
                Some(ty) => expr_fault(g, visiting, module, ty),
                None => None,
            },
        }
    }
}

#[via_fn]
proof fn expr_fault_decreases(g: TypeGraph, visiting: Seq<bool>, module: u32, e: TypeExpr) {
    if let TypeExpr::Ref(_, path) = e {
        if let RefTarget::Type(t) = g.target(module, path@) {
            if 0 <= t < visiting.len() && !visiting[t] {
                lemma_unvisited(visiting, t, visiting.len());
            }
        }
    }
}

#[via_fn]
proof fn fields_fault_decreases(
    g: TypeGraph,
    visiting: Seq<bool>,
    module: u32,
    fields: Seq<StructField>,
    k: nat,
) {
}

#[via_fn]
proof fn decl_fault_decreases(g: TypeGraph, visiting: Seq<bool>, module: u32, decl: TypeDecl) {
}

#[via_fn]
proof fn variants_fault_decreases(
    g: TypeGraph,
    visiting: Seq<bool>,
    module: u32,
    variants: Seq<Variant>,
    k: nat,
) {
}

// CHECKING
// ================================================================================================

/// Checks what modules export.
pub struct TypeChecker<'a> {
    pub modules: &'a Vec<Module>,
    pub refs: &'a Vec<TypeReference>,
    pub types: Vec<GlobalItemIndex>,
}

/// The numbers of modules and items are small enough.
pub open spec fn countable_modules(modules: Seq<Module>) -> bool {
    &&& modules.len() <= u32::MAX
    &&& forall|m: int|
        0 <= m < modules.len() ==> (#[trigger] modules[m]).symbols@.len() <= u32::MAX
}

/// Items that are types.
pub open spec fn are_types(modules: Seq<Module>, list: Seq<GlobalItemIndex>) -> bool {
    forall|i: int|
        0 <= i < list.len() ==> has_item(modules, #[trigger] list[i]) && symbol_at(
            modules,
            list[i],
        ).item is Type
}

impl<'a> TypeChecker<'a> {
    pub open spec fn view(&self) -> TypeGraph {
        TypeGraph { modules: self.modules@, refs: self.refs@, types: self.types@ }
    }

    /// A checker for modules whose paths lead where `refs` says.
    pub fn new(modules: &'a Vec<Module>, refs: &'a Vec<TypeReference>) -> (checker: TypeChecker<'a>)
        requires
            countable_modules(modules@),
        ensures
            checker@.wf(),
            checker@ == (TypeGraph {
                modules: modules@,
                refs: refs@,
                types: all_types(modules@, modules@.len()),
            }),
    {
        let mut types: Vec<GlobalItemIndex> = Vec::new();
        assert(types@ =~= Seq::empty());
        let mut m: usize = 0;
        while m < modules.len()
            invariant
                m <= modules@.len(),
                countable_modules(modules@),
                types@ == all_types(modules@, m as nat),
                are_types(modules@, types@),
            decreases modules@.len() - m,
        {
            let module = &modules[m];
            let ghost before = types@;
            assert(modules@[m as int].symbols@.len() <= u32::MAX);
            let mut i: usize = 0;
            assert(types@ =~= before + module_types(modules@, m as u32, 0));
            while i < module.symbols.len()
                invariant
                    i <= module.symbols@.len() <= u32::MAX,
                    m < modules@.len() <= u32::MAX,
                    *module == modules@[m as int],
                    types@ == before + module_types(modules@, m as u32, i as nat),
                    are_types(modules@, types@),
                decreases module.symbols@.len() - i,
            {
                let is_type = match &module.symbols[i].item {
                    SymbolItem::Type { decl: _, ty: _ } => true,
                    _ => false,
                };
                if is_type {
                    types.push(GlobalItemIndex { module: m as u32, index: i as u32 });
                }
                assert(types@ =~= before + module_types(modules@, m as u32, (i + 1) as nat));
                i += 1;
            }
            m += 1;
        }
        TypeChecker { modules, refs, types }
    }

    /// What a path leads to.
    fn find(&self, module: u32, path: &Path) -> (found: Option<Option<usize>>)
        ensures
            match found {
                None => self@.target(module, path@) is Undefined,
                Some(None) => self@.target(module, path@) is Other,
                Some(Some(t)) => t < self.types@.len() && self@.target(module, path@)
                    == RefTarget::Type(t as int),
            },
    {
        let mut at: Option<usize> = None;
        let mut i: usize = 0;
        while i < self.refs.len()
            invariant
                i <= self.refs@.len(),
                match at {
                    Some(k) => k < i && reference_index(self.refs@, module, path@, i as nat)
                        == Some(k as nat),
                    None => reference_index(self.refs@, module, path@, i as nat) is None,
                },
            decreases self.refs@.len() - i,
        {
            if at.is_none() && self.refs[i].module == module && self.refs[i].path.same_as(path) {
                at = Some(i);
            }
            i += 1;
        }
        match at {
            None => None,
            Some(k) => match self.refs[k].target {
                None => Some(None),
                Some(gid) => Some(self.find_type(gid)),
            },
        }
    }

    fn find_type(&self, gid: GlobalItemIndex) -> (found: Option<usize>)
        ensures
            match found {
                None => type_index(self.types@, gid, self.types@.len()) is None,
                Some(t) => t < self.types@.len() && type_index(
                    self.types@,
                    gid,
                    self.types@.len(),
                ) == Some(t as nat),
            },
    {
        let mut found: Option<usize> = None;
        let mut i: usize = 0;
        while i < self.types.len()
            invariant
                i <= self.types@.len(),
                match found {
                    None => type_index(self.types@, gid, i as nat) is None,
                    Some(t) => t < i && type_index(self.types@, gid, i as nat) == Some(t as nat),
                },
            decreases self.types@.len() - i,
        {
            if found.is_none() && self.types[i] == gid {
                found = Some(i);
            }
            i += 1;
        }
        found
    }

    /// Checks a type expression of a module.
    fn verify_exported_type_expr(&self, module: u32, e: &TypeExpr, visiting: &mut Vec<bool>) -> (res:
        Result<(), TypeFault>)
        requires
            self@.wf(),
            old(visiting)@.len() == self.types@.len(),
        ensures
            match res {
                Ok(_) => expr_fault(self@, old(visiting)@, module, *e) is None && final(visiting)@ == old(visiting)@,
                Err(f) => expr_fault(self@, old(visiting)@, module, *e) == Some(f),
            },
        decreases left(old(visiting)@), 0nat, e, 1nat,
    {
        match e {
            TypeExpr::Primitive(_, _) => Ok(()),
            TypeExpr::Ptr(ty) => self.verify_exported_type_expr(module, &ty.pointee, visiting),
            TypeExpr::Array(ty) => self.verify_exported_type_expr(module, &ty.elem, visiting),
            TypeExpr::Struct(ty) => {
                let fields = &ty.fields;
                let n: usize = fields.len();
                let mut i: usize = 0;
                let ghost start = visiting@;
                while i < n
                    invariant
                        i <= n == fields@.len(),
                        *e == TypeExpr::Struct(*ty),
                        *fields == ty.fields,
                        self@.wf(),
                        start == old(visiting)@,
                        visiting@ == start,
                        start.len() == self.types@.len(),
                        fields_fault(self@, start, module, fields@, i as nat) is None,
                    decreases n - i,
                {
                    assert(decreases_to!(*e => fields@[i as int].ty)) by {
                        assert(decreases_to!(ty.fields => ty.fields@[i as int]));
                    }
                    match self.verify_exported_type_expr(module, &fields[i].ty, visiting) {
                        Ok(_) => {},
                        Err(f) => {
                            proof {
                                lemma_fields_fault(
                                    self@,
                                    start,
                                    module,
                                    fields@,
                                    (i + 1) as nat,
                                    n as nat,
                                );
                            }
                            return Err(f);
                        },
                    }
                    i += 1;
                }
                Ok(())
            },
            TypeExpr::Ref(span, path) => {
                let t: usize = match self.find(module, path) {
                    None => {
                        return Err(TypeFault::Undefined { span: *span });
                    },
                    Some(None) => {
                        return Ok(());
                    },
                    Some(Some(t)) => t,
                };
                let gid = self.types[t];
                assert(has_item(self.modules@, self@.types[t as int]));
                let symbol = &self.modules[gid.module as usize].symbols[gid.index as usize];
                let decl = match &symbol.item {
                    SymbolItem::Type { decl, ty: _ } => decl,
                    _ => {
                        assert(false);
                        return Ok(());
                    },
                };
                if !symbol.visibility.is_public() {
                    return Err(
                        TypeFault::Private { span: *span, defined: decl.name().span },
                    );
                }
                if visiting[t] {
                    return Ok(());
                }
                let ghost start = visiting@;
                proof {
                    lemma_unvisited(start, t as int, start.len());
                }
                visiting[t] = true;
                match self.verify_exported_type_decl(gid.module, decl, visiting) {
                    Ok(_) => {},
                    Err(f) => {
                        return Err(f);
                    },
                }
                visiting[t] = false;
                assert(visiting@ =~= start);
                Ok(())
            },
        }
    }

    /// Checks a declared type.
    fn verify_exported_type_decl(&self, module: u32, decl: &TypeDecl, visiting: &mut Vec<bool>) -> (
    res: Result<(), TypeFault>)
        requires
            self@.wf(),
            old(visiting)@.len() == self.types@.len(),
        ensures
            match res {
                Ok(_) => decl_fault(self@, old(visiting)@, module, *decl) is None && final(visiting)@ == old(visiting)@,
                Err(f) => decl_fault(self@, old(visiting)@, module, *decl) == Some(f),
            },
        decreases left(old(visiting)@), 2nat, decl, 0nat,
    {
        match decl {
            TypeDecl::Alias(alias) => self.verify_exported_type_expr(module, &alias.ty, visiting),
            TypeDecl::Enum(ty) => {
                let variants = &ty.variants;
                let n: usize = variants.len();
                let mut i: usize = 0;
                let ghost start = visiting@;
                while i < n
                    invariant
                        i <= n == variants@.len(),
                        *decl == TypeDecl::Enum(*ty),
                        *variants == ty.variants,
                        self@.wf(),
                        start == old(visiting)@,
                        visiting@ == start,
                        start.len() == self.types@.len(),
                        variants_fault(self@, start, module, variants@, i as nat) is None,
                    decreases n - i,
                {
                    if let Some(payload) = &variants[i].value_ty {
                        match self.verify_exported_type_expr(module, payload, visiting) {
                            Ok(_) => {},
                            Err(f) => {
                                proof {
                                    lemma_variants_fault(
                                        self@,
                                        start,
                                        module,
                                        variants@,
                                        (i + 1) as nat,
                                        n as nat,
                                    );
                                }
                                return Err(f);
                            },
                        }
                    }
                    i += 1;
                }
                Ok(())
            },
        }
    }

    fn none_visiting(&self) -> (visiting: Vec<bool>)
        ensures
            visiting@ == no_visits(self.types@.len()),
    {
        let mut visiting: Vec<bool> = Vec::new();
        let mut i: usize = 0;
        while i < self.types.len()
            invariant
                i <= self.types@.len(),
                visiting@ == no_visits(i as nat),
            decreases self.types@.len() - i,
        {
            visiting.push(false);
            assert(visiting@ =~= no_visits((i + 1) as nat));
            i += 1;
        }
        visiting
    }

    fn verify_types(&self, module: u32, types: &Vec<TypeExpr>) -> (res: Result<(), TypeFault>)
        requires
            self@.wf(),
        ensures
            match res {
                Ok(_) => types_fault(self@, module, types@, types@.len()) is None,
                Err(f) => types_fault(self@, module, types@, types@.len()) == Some(f),
            },
    {
        let n: usize = types.len();
        let mut i: usize = 0;
        while i < n
            invariant
                i <= n == types@.len(),
                self@.wf(),
                types_fault(self@, module, types@, i as nat) is None,
            decreases n - i,
        {
            let mut visiting = self.none_visiting();
            match self.verify_exported_type_expr(module, &types[i], &mut visiting) {
                Ok(_) => {},
                Err(f) => {
                    proof {
                        lemma_types_fault(self@, module, types@, (i + 1) as nat, n as nat);
                    }
                    return Err(f);
                },
            }
            i += 1;
        }
        Ok(())
    }

    /// Checks the arguments and results of a procedure.
    pub fn verify_exported_signature(&self, module: u32, signature: &Option<FunctionType>) -> (res:
        Result<(), ExportFault>)
        requires
            self@.wf(),
        ensures
            match res {
                Ok(_) => signature_fault(self@, module, *signature) is None,
                Err(f) => signature_fault(self@, module, *signature) == Some(f),
            },
    {
        match signature {
            None => Ok(()),
            Some(signature) => {
                let usage = ExportedTypeUse::ProcedureSignature;
                match self.verify_types(module, &signature.args) {
                    Ok(_) => match self.verify_types(module, &signature.results) {
                        Ok(_) => Ok(()),
                        Err(f) => Err(usage.private_type_error(f)),
                    },
                    Err(f) => Err(usage.private_type_error(f)),
                }
            },
        }
    }

    /// Checks an item that is exported, by an import if `export_span` says so.
    pub fn verify_exported_item(&self, gid: GlobalItemIndex, export_span: Option<SourceSpan>) -> (
    res: Result<(), ExportFault>)
        requires
            self@.wf(),
            has_item(self.modules@, gid),
        ensures
            match res {
                Ok(_) => item_fault(self@, gid, export_span) is None,
                Err(f) => item_fault(self@, gid, export_span) == Some(f),
            },
    {
        let symbol = &self.modules[gid.module as usize].symbols[gid.index as usize];
        match &symbol.item {
            SymbolItem::Procedure(source) => self.verify_exported_signature(
                gid.module,
                &source.declared,
            ),
            SymbolItem::Type { decl, ty: _ } => {
                if !symbol.visibility.is_public() {
                    let defined = decl.name().span;
                    let span = match export_span {
                        Some(span) => span,
                        None => defined,
                    };
                    return Err(ExportFault::PrivateTypeInExportedType { span, defined });
                }
                let mut visiting = self.none_visiting();
                match self.verify_exported_type_decl(gid.module, decl, &mut visiting) {
                    Ok(_) => Ok(()),
                    Err(f) => Err(ExportedTypeUse::TypeDeclaration.private_type_error(f)),
                }
            },
            _ => Ok(()),
        }
    }

    /// Checks the public items of modules, and those that they import publicly.
    pub fn verify_exported_signature_type_visibility(&self, list: &Vec<u32>) -> (res: Result<
        (),
        ExportFault,
    >)
        requires
            self@.wf(),
            countable_modules(self.modules@),
            forall|i: int| 0 <= i < list@.len() ==> (#[trigger] list@[i]) < self.modules@.len(),
            forall|m: int, i: int|
                0 <= m < self.modules@.len() && 0 <= i < self.modules@[m].imports@.len() ==> ((
                #[trigger] self.modules@[m].imports@[i]).resolved matches Some(gid) ==> has_item(
                    self.modules@,
                    gid,
                )),
        ensures
            match res {
                Ok(_) => modules_fault(self@, list@, list@.len()) is None,
                Err(f) => modules_fault(self@, list@, list@.len()) == Some(f),
            },
    {
        let n: usize = list.len();
        let mut k: usize = 0;
        while k < n
            invariant
                k <= n == list@.len(),
                self@.wf(),
                countable_modules(self.modules@),
                forall|i: int| 0 <= i < list@.len() ==> (#[trigger] list@[i]) < self.modules@.len(),
                forall|m: int, i: int|
                    0 <= m < self.modules@.len() && 0 <= i < self.modules@[m].imports@.len() ==> ((
                    #[trigger] self.modules@[m].imports@[i]).resolved matches Some(gid) ==> has_item(
                        self.modules@,
                        gid,
                    )),
                modules_fault(self@, list@, k as nat) is None,
            decreases n - k,
        {
            let m: u32 = list[k];
            assert(list@[k as int] < self.modules@.len());
            proof {
                if module_fault(self@, m) is Some {
                    lemma_modules_fault(self@, list@, (k + 1) as nat, n as nat);
                }
            }
            match self.verify_module(m) {
                Ok(_) => {},
                Err(f) => {
                    return Err(f);
                },
            }
            k += 1;
        }
        Ok(())
    }

    fn verify_module(&self, m: u32) -> (res: Result<(), ExportFault>)
        requires
            self@.wf(),
            countable_modules(self.modules@),
            m < self.modules@.len(),
            forall|i: int|
                0 <= i < self.modules@[m as int].imports@.len() ==> ((
                #[trigger] self.modules@[m as int].imports@[i]).resolved matches Some(gid)
                    ==> has_item(self.modules@, gid)),
        ensures
            match res {
                Ok(_) => module_fault(self@, m) is None,
                Err(f) => module_fault(self@, m) == Some(f),
            },
    {
        let module = &self.modules[m as usize];
        let n: usize = module.symbols.len();
        assert(self.modules@[m as int].symbols@.len() <= u32::MAX);
        let mut i: usize = 0;
        while i < n
            invariant
                i <= n == module.symbols@.len() <= u32::MAX,
                *module == self.modules@[m as int],
                m < self.modules@.len(),
                self@.wf(),
                symbols_fault(self@, m, i as nat) is None,
            decreases n - i,
        {
            if module.symbols[i].visibility.is_public() {
                let gid = GlobalItemIndex { module: m, index: i as u32 };
                match self.verify_exported_item(gid, None) {
                    Ok(_) => {},
                    Err(f) => {
                        proof {
                            lemma_symbols_fault(self@, m, (i + 1) as nat, n as nat);
                        }
                        return Err(f);
                    },
                }
            }
            i += 1;
        }
        let n: usize = module.imports.len();
        let mut i: usize = 0;
        while i < n
            invariant
                i <= n == module.imports@.len(),
                *module == self.modules@[m as int],
                m < self.modules@.len(),
                self@.wf(),
                forall|i: int|
                    0 <= i < self.modules@[m as int].imports@.len() ==> ((
                    #[trigger] self.modules@[m as int].imports@[i]).resolved matches Some(gid)
                        ==> has_item(self.modules@, gid)),
                symbols_fault(self@, m, module.symbols@.len()) is None,
                imports_fault(self@, m, i as nat) is None,
            decreases n - i,
        {
            let import = &module.imports[i];
            assert(self.modules@[m as int].imports@[i as int] == *import);
            if import.visibility.is_public() && import.is_item {
                if let Some(gid) = import.resolved {
                    match self.verify_exported_item(gid, Some(import.span)) {
                        Ok(_) => {},
                        Err(f) => {
                            proof {
                                lemma_imports_fault(self@, m, (i + 1) as nat, n as nat);
                            }
                            return Err(f);
                        },
                    }
                }
            }
            i += 1;
        }
        Ok(())
    }
}

pub open spec fn no_visits(n: nat) -> Seq<bool> {
    Seq::new(n, |i: int| false)
}

/// The first thing that is wrong with exporting the first `k` of a list of types.
pub open spec fn types_fault(g: TypeGraph, module: u32, types: Seq<TypeExpr>, k: nat) -> Option<
    TypeFault,
>
    decreases k,
{
    if k == 0 {
        None
    } else {
        match types_fault(g, module, types, (k - 1) as nat) {
            Some(e) => Some(e),
            None => expr_fault(g, no_visits(g.types.len()), module, types[k - 1]),
        }
    }
}

pub open spec fn signature_fault(
    g: TypeGraph,
    module: u32,
    signature: Option<FunctionType>,
) -> Option<ExportFault> {
    match signature {
        None => None,
        Some(signature) => match types_fault(
            g,
            module,
            signature.args@,
            signature.args@.len(),
        ) {
            Some(e) => Some(ExportedTypeUse::ProcedureSignature.fault(e)),
            None => match types_fault(g, module, signature.results@, signature.results@.len()) {
                Some(e) => Some(ExportedTypeUse::ProcedureSignature.fault(e)),
                None => None,
            },
        },
    }
}

/// The first thing that is wrong with exporting an item.
pub open spec fn item_fault(
    g: TypeGraph,
    gid: GlobalItemIndex,
    export_span: Option<SourceSpan>,
) -> Option<ExportFault> {
    let symbol = symbol_at(g.modules, gid);
    match symbol.item {
        SymbolItem::Procedure(source) => signature_fault(g, gid.module, source.declared),
        SymbolItem::Type { decl, ty: _ } => if symbol.visibility is Private {
            Some(
                ExportFault::PrivateTypeInExportedType {
                    span: match export_span {
                        Some(span) => span,
                        None => name_span(decl),
                    },
                    defined: name_span(decl),
                },
            )
        } else {
            match decl_fault(g, no_visits(g.types.len()), gid.module, decl) {
                Some(e) => Some(ExportedTypeUse::TypeDeclaration.fault(e)),
                None => None,
            }
        },
        _ => None,
    }
}

pub open spec fn symbols_fault(g: TypeGraph, m: u32, k: nat) -> Option<ExportFault>
    decreases k,
{
    if k == 0 {
        None
    } else {
        match symbols_fault(g, m, (k - 1) as nat) {
            Some(e) => Some(e),
            None => if g.modules[m as int].symbols@[k - 1].visibility is Public {
                item_fault(g, GlobalItemIndex { module: m, index: (k - 1) as u32 }, None)
            } else {
                None
            },
        }
    }
}

pub open spec fn imports_fault(g: TypeGraph, m: u32, k: nat) -> Option<ExportFault>
    decreases k,
{
    if k == 0 {
        None
    } else {
        match imports_fault(g, m, (k - 1) as nat) {
            Some(e) => Some(e),
            None => {
                let import = g.modules[m as int].imports@[k - 1];
                match import.resolved {
                    Some(gid) => if import.visibility is Public && import.is_item {
                        item_fault(g, gid, Some(import.span))
                    } else {
                        None
                    },
                    None => None,
                }
            },
        }
    }
}

pub open spec fn module_fault(g: TypeGraph, m: u32) -> Option<ExportFault> {
    match symbols_fault(g, m, g.modules[m as int].symbols@.len()) {
        Some(e) => Some(e),
        None => imports_fault(g, m, g.modules[m as int].imports@.len()),
    }
}

/// The first thing that is wrong with exporting the first `k` of a list of modules.
pub open spec fn modules_fault(g: TypeGraph, list: Seq<u32>, k: nat) -> Option<ExportFault>
    decreases k,
{
    if k == 0 {
        None
    } else {
        match modules_fault(g, list, (k - 1) as nat) {
            Some(e) => Some(e),
            None => module_fault(g, list[k - 1]),
        }
    }
}

proof fn lemma_fields_fault(
    g: TypeGraph,
    visiting: Seq<bool>,
    module: u32,
    fields: Seq<StructField>,
    k: nat,
    n: nat,
)
    requires
        k <= n <= fields.len(),
        fields_fault(g, visiting, module, fields, k) is Some,
    ensures
        fields_fault(g, visiting, module, fields, n) == fields_fault(
            g,
            visiting,
            module,
            fields,
            k,
        ),
    decreases n - k,
{
    if k < n {
        lemma_fields_fault(g, visiting, module, fields, k, (n - 1) as nat);
    }
}

proof fn lemma_variants_fault(
    g: TypeGraph,
    visiting: Seq<bool>,
    module: u32,
    variants: Seq<Variant>,
    k: nat,
    n: nat,
)
    requires
        k <= n <= variants.len(),
        variants_fault(g, visiting, module, variants, k) is Some,
    ensures
        variants_fault(g, visiting, module, variants, n) == variants_fault(
            g,
            visiting,
            module,
            variants,
            k,
        ),
    decreases n - k,
{
    if k < n {
        lemma_variants_fault(g, visiting, module, variants, k, (n - 1) as nat);
    }
}

proof fn lemma_types_fault(g: TypeGraph, module: u32, types: Seq<TypeExpr>, k: nat, n: nat)
    requires
        k <= n,
        types_fault(g, module, types, k) is Some,
    ensures
        types_fault(g, module, types, n) == types_fault(g, module, types, k),
    decreases n - k,
{
    if k < n {
        lemma_types_fault(g, module, types, k, (n - 1) as nat);
    }
}

proof fn lemma_symbols_fault(g: TypeGraph, m: u32, k: nat, n: nat)
    requires
        k <= n,
        symbols_fault(g, m, k) is Some,
    ensures
        symbols_fault(g, m, n) == symbols_fault(g, m, k),
    decreases n - k,
{
    if k < n {
        lemma_symbols_fault(g, m, k, (n - 1) as nat);
    }
}

proof fn lemma_imports_fault(g: TypeGraph, m: u32, k: nat, n: nat)
    requires
        k <= n,
        imports_fault(g, m, k) is Some,
    ensures
        imports_fault(g, m, n) == imports_fault(g, m, k),
    decreases n - k,
{
    if k < n {
        lemma_imports_fault(g, m, k, (n - 1) as nat);
    }
}

proof fn lemma_modules_fault(g: TypeGraph, list: Seq<u32>, k: nat, n: nat)
    requires
        k <= n,
        modules_fault(g, list, k) is Some,
    ensures
        modules_fault(g, list, n) == modules_fault(g, list, k),
    decreases n - k,
{
    if k < n {
        lemma_modules_fault(g, list, k, (n - 1) as nat);
    }
}

// LAWS
// ================================================================================================

/// A type expression of a module refers to type `t`.
pub open spec fn refers(g: TypeGraph, module: u32, e: TypeExpr, t: int) -> bool
    decreases e, 0nat,
{
    match e {
        TypeExpr::Primitive(_, _) => false,
        TypeExpr::Ptr(ty) => refers(g, module, *ty.pointee, t),
        TypeExpr::Array(ty) => refers(g, module, *ty.elem, t),
        TypeExpr::Struct(ty) => fields_refer(g, module, ty.fields@, t, ty.fields@.len()),
        TypeExpr::Ref(_, path) => g.target(module, path@) == RefTarget::Type(t),
    }
}

pub open spec fn fields_refer(
    g: TypeGraph,
    module: u32,
    fields: Seq<StructField>,
    t: int,
    k: nat,
) -> bool
    decreases fields, k,
{
    if k == 0 || k > fields.len() {
        false
    } else {
        fields_refer(g, module, fields, t, (k - 1) as nat) || refers(
            g,
            module,
            fields[k - 1].ty,
            t,
        )
    }
}

/// The declaration of type `a` refers to type `b`.
pub open spec fn leads(g: TypeGraph, a: int, b: int) -> bool {
    match g.decl(a) {
        TypeDecl::Alias(alias) => refers(g, g.module(a), alias.ty, b),
        TypeDecl::Enum(ty) => exists|i: int|
            0 <= i < ty.variants@.len() && ((#[trigger] ty.variants@[i]).value_ty matches Some(e)
                && refers(g, g.module(a), e, b)),
    }
}

/// Types of which each refers to the next.
pub open spec fn is_type_chain(g: TypeGraph, chain: Seq<int>) -> bool {
    &&& chain.len() > 0
    &&& forall|i: int| 0 <= i < chain.len() ==> 0 <= #[trigger] chain[i] < g.types.len()
    &&& forall|i: int|
        0 <= i < chain.len() - 1 ==> leads(g, #[trigger] chain[i], chain[i + 1])
}

/// A type that an expression refers to was looked at.
proof fn lemma_expr_covers(g: TypeGraph, visiting: Seq<bool>, module: u32, e: TypeExpr, t: int)
    requires
        expr_fault(g, visiting, module, e) is None,
        refers(g, module, e, t),
        0 <= t < visiting.len(),
    ensures
        g.is_public(t),
        !visiting[t] ==> decl_fault(g, visiting.update(t, true), g.module(t), g.decl(t)) is None,
    decreases e, 0nat,
{
    match e {
        TypeExpr::Ptr(ty) => lemma_expr_covers(g, visiting, module, *ty.pointee, t),
        TypeExpr::Array(ty) => lemma_expr_covers(g, visiting, module, *ty.elem, t),
        TypeExpr::Struct(ty) => lemma_fields_cover(
            g,
            visiting,
            module,
            ty.fields@,
            t,
            ty.fields@.len(),
        ),
        _ => {},
    }
}

proof fn lemma_fields_cover(
    g: TypeGraph,
    visiting: Seq<bool>,
    module: u32,
    fields: Seq<StructField>,
    t: int,
    k: nat,
)
    requires
        k <= fields.len(),
        fields_fault(g, visiting, module, fields, k) is None,
        fields_refer(g, module, fields, t, k),
        0 <= t < visiting.len(),
    ensures
        g.is_public(t),
        !visiting[t] ==> decl_fault(g, visiting.update(t, true), g.module(t), g.decl(t)) is None,
    decreases fields, k,
{
    if refers(g, module, fields[k - 1].ty, t) {
        lemma_expr_covers(g, visiting, module, fields[k - 1].ty, t);
    } else {
        lemma_fields_cover(g, visiting, module, fields, t, (k - 1) as nat);
    }
}

proof fn lemma_variants_clear(
    g: TypeGraph,
    visiting: Seq<bool>,
    module: u32,
    variants: Seq<Variant>,
    i: int,
    k: nat,
)
    requires
        0 <= i < k <= variants.len(),
        variants_fault(g, visiting, module, variants, k) is None,
    ensures
        variants[i].value_ty matches Some(e) ==> expr_fault(g, visiting, module, e) is None,
    decreases k,
{
    if i < k - 1 {
        lemma_variants_clear(g, visiting, module, variants, i, (k - 1) as nat);
    }
}

/// A type that a declaration refers to was looked at.
proof fn lemma_decl_covers(g: TypeGraph, visiting: Seq<bool>, a: int, t: int)
    requires
        decl_fault(g, visiting, g.module(a), g.decl(a)) is None,
        leads(g, a, t),
        0 <= t < visiting.len(),
    ensures
        g.is_public(t),
        !visiting[t] ==> decl_fault(g, visiting.update(t, true), g.module(t), g.decl(t)) is None,
{
    match g.decl(a) {
        TypeDecl::Alias(alias) => lemma_expr_covers(g, visiting, g.module(a), alias.ty, t),
        TypeDecl::Enum(ty) => {
            let i = choose|i: int|
                0 <= i < ty.variants@.len() && ((#[trigger] ty.variants@[i]).value_ty matches Some(
                    e,
                ) && refers(g, g.module(a), e, t));
            lemma_variants_clear(
                g,
                visiting,
                g.module(a),
                ty.variants@,
                i,
                ty.variants@.len(),
            );
            lemma_expr_covers(g, visiting, g.module(a), ty.variants@[i].value_ty->0, t);
        },
    }
}

/// The last place of a chain where it is at `x`.
proof fn lemma_last_place(chain: Seq<int>, x: int, k: nat) -> (i: int)
    requires
        k < chain.len(),
        chain[0] == x,
    ensures
        0 <= i <= k,
        chain[i] == x,
        forall|j: int| i < j <= k ==> chain[j] != x,
    decreases k,
{
    if chain[k as int] == x || k == 0 {
        k as int
    } else {
        lemma_last_place(chain, x, (k - 1) as nat)
    }
}

/// Where the declaration of the first type of a chain was looked at, the last type is public.
proof fn lemma_chain_public(g: TypeGraph, visiting: Seq<bool>, chain: Seq<int>)
    requires
        is_type_chain(g, chain),
        visiting.len() == g.types.len(),
        forall|i: int| 0 <= i < chain.len() ==> !visiting[#[trigger] chain[i]],
        g.is_public(chain[0]),
        decl_fault(
            g,
            visiting.update(chain[0], true),
            g.module(chain[0]),
            g.decl(chain[0]),
        ) is None,
    ensures
        g.is_public(chain.last()),
    decreases chain.len(),
{
    let x = chain[0];
    let i = lemma_last_place(chain, x, (chain.len() - 1) as nat);
    if i < chain.len() - 1 {
        let rest = chain.skip(i + 1);
        let next = visiting.update(x, true);
        assert(leads(g, chain[i], chain[i + 1]));
        assert(rest[0] == chain[i + 1]);
        assert(0 <= chain[i + 1] < g.types.len());
        assert forall|j: int| 0 <= j < rest.len() implies !next[#[trigger] rest[j]] by {
            assert(rest[j] == chain[i + 1 + j]);
        }
        assert(is_type_chain(g, rest)) by {
            assert forall|j: int| 0 <= j < rest.len() implies 0 <= #[trigger] rest[j]
                < g.types.len() by {
                assert(rest[j] == chain[i + 1 + j]);
            }
            assert forall|j: int| 0 <= j < rest.len() - 1 implies leads(
                g,
                #[trigger] rest[j],
                rest[j + 1],
            ) by {
                assert(rest[j] == chain[i + 1 + j]);
                assert(leads(g, chain[i + 1 + j], chain[i + 1 + j + 1]));
            }
        }
        lemma_decl_covers(g, next, x, rest[0]);
        assert(!next[rest[0]]);
        lemma_chain_public(g, next, rest);
        assert(rest.last() == chain.last());
    }
}

/// Where an expression can be exported, every type that it refers to is public, and so is every
/// type that those rest on.
pub proof fn law_exported_types_are_public(
    g: TypeGraph,
    module: u32,
    e: TypeExpr,
    chain: Seq<int>,
)
    requires
        expr_fault(g, no_visits(g.types.len()), module, e) is None,
        is_type_chain(g, chain),
        refers(g, module, e, chain[0]),
    ensures
        g.is_public(chain.last()),
{
    let visiting = no_visits(g.types.len());
    assert(0 <= chain[0] < g.types.len());
    lemma_expr_covers(g, visiting, module, e, chain[0]);
    lemma_chain_public(g, visiting, chain);
}

/// A type expression that an item is exported with: in the signature of a procedure, or in the
/// declaration of a type.
pub open spec fn exports_type(g: TypeGraph, gid: GlobalItemIndex, e: TypeExpr) -> bool {
    match symbol_at(g.modules, gid).item {
        SymbolItem::Procedure(source) => source.declared matches Some(signature) && (
        signature.args@.contains(e) || signature.results@.contains(e)),
        SymbolItem::Type { decl, ty: _ } => match decl {
            TypeDecl::Alias(alias) => alias.ty == e,
            TypeDecl::Enum(ty) => exists|i: int|
                0 <= i < ty.variants@.len() && (#[trigger] ty.variants@[i]).value_ty == Some(e),
        },
        _ => false,
    }
}

/// Symbol `k` of a module is public, and is the item.
pub open spec fn offers_symbol(g: TypeGraph, m: u32, k: int, gid: GlobalItemIndex) -> bool {
    let symbols = g.modules[m as int].symbols@;
    0 <= k < symbols.len() && symbols[k].visibility is Public && gid == (GlobalItemIndex {
        module: m,
        index: k as u32,
    })
}

/// Import `k` of a module is public, and leads to the item.
pub open spec fn offers_import(g: TypeGraph, m: u32, k: int, gid: GlobalItemIndex) -> bool {
    let imports = g.modules[m as int].imports@;
    0 <= k < imports.len() && imports[k].visibility is Public && imports[k].is_item
        && imports[k].resolved == Some(gid)
}

/// An item that a module offers: one of its own, or one that it imports.
pub open spec fn offers(g: TypeGraph, m: u32, gid: GlobalItemIndex) -> bool {
    (exists|k: int| #[trigger] offers_symbol(g, m, k, gid)) || (exists|k: int| #[trigger]
        offers_import(g, m, k, gid))
}

/// Modules that pass offer no private type, and none of their items rests on one: what an item is
/// exported with refers to public types only, and so do the types that it refers to.
pub proof fn law_offered_items_rest_on_public_types(
    g: TypeGraph,
    list: Seq<u32>,
    i: int,
    gid: GlobalItemIndex,
)
    requires
        modules_fault(g, list, list.len()) is None,
        0 <= i < list.len(),
        offers(g, list[i], gid),
    ensures
        symbol_at(g.modules, gid).item is Type ==> !(symbol_at(
            g.modules,
            gid,
        ).visibility is Private),
        forall|e: TypeExpr, chain: Seq<int>|
            exports_type(g, gid, e) && is_type_chain(g, chain) && #[trigger] refers(
                g,
                gid.module,
                e,
                chain[0],
            ) ==> g.is_public(#[trigger] chain.last()),
{
    let m = list[i];
    assert(module_fault(g, m) is None) by {
        if module_fault(g, m) is Some {
            assert(modules_fault(g, list, (i + 1) as nat) is Some);
            lemma_modules_fault(g, list, (i + 1) as nat, list.len());
        }
    }
    let span = lemma_offered_item(g, m, gid);
    assert forall|e: TypeExpr, chain: Seq<int>|
        exports_type(g, gid, e) && is_type_chain(g, chain) && #[trigger] refers(
            g,
            gid.module,
            e,
            chain[0],
        ) implies g.is_public(#[trigger] chain.last()) by {
        lemma_exported_expr(g, gid, span, e);
        law_exported_types_are_public(g, gid.module, e, chain);
    }
}

/// An item that a module without faults offers has none.
proof fn lemma_offered_item(g: TypeGraph, m: u32, gid: GlobalItemIndex) -> (span: Option<SourceSpan>)
    requires
        module_fault(g, m) is None,
        offers(g, m, gid),
    ensures
        item_fault(g, gid, span) is None,
{
    let symbols = g.modules[m as int].symbols@;
    let imports = g.modules[m as int].imports@;
    if exists|k: int| #[trigger] offers_symbol(g, m, k, gid) {
        let k = choose|k: int| #[trigger] offers_symbol(g, m, k, gid);
        if symbols_fault(g, m, (k + 1) as nat) is Some {
            lemma_symbols_fault(g, m, (k + 1) as nat, symbols.len());
        }
        assert(symbols_fault(g, m, (k + 1) as nat) is None);
        None
    } else {
        let k = choose|k: int| #[trigger] offers_import(g, m, k, gid);
        if imports_fault(g, m, (k + 1) as nat) is Some {
            lemma_imports_fault(g, m, (k + 1) as nat, imports.len());
        }
        assert(imports_fault(g, m, (k + 1) as nat) is None);
        Some(imports[k].span)
    }
}

/// What an item without faults is exported with has none.
proof fn lemma_exported_expr(
    g: TypeGraph,
    gid: GlobalItemIndex,
    span: Option<SourceSpan>,
    e: TypeExpr,
)
    requires
        item_fault(g, gid, span) is None,
        exports_type(g, gid, e),
    ensures
        expr_fault(g, no_visits(g.types.len()), gid.module, e) is None,
{
    let none = no_visits(g.types.len());
    match symbol_at(g.modules, gid).item {
        SymbolItem::Procedure(source) => {
            let signature = source.declared->0;
            if signature.args@.contains(e) {
                lemma_listed_type(g, gid.module, signature.args@, e);
            } else {
                lemma_listed_type(g, gid.module, signature.results@, e);
            }
        },
        SymbolItem::Type { decl, ty: _ } => match decl {
            TypeDecl::Alias(_) => {},
            TypeDecl::Enum(ty) => {
                let variants = ty.variants@;
                let i = choose|i: int|
                    0 <= i < variants.len() && (#[trigger] variants[i]).value_ty == Some(e);
                assert(variants_fault(g, none, gid.module, variants, variants.len()) is None);
                if variants_fault(g, none, gid.module, variants, (i + 1) as nat) is Some {
                    lemma_variants_fault(
                        g,
                        none,
                        gid.module,
                        variants,
                        (i + 1) as nat,
                        variants.len(),
                    );
                }
            },
        },
        _ => {},
    }
}

proof fn lemma_listed_type(g: TypeGraph, module: u32, types: Seq<TypeExpr>, e: TypeExpr)
    requires
        types_fault(g, module, types, types.len()) is None,
        types.contains(e),
    ensures
        expr_fault(g, no_visits(g.types.len()), module, e) is None,
{
    let i = choose|i: int| 0 <= i < types.len() && types[i] == e;
    if types_fault(g, module, types, (i + 1) as nat) is Some {
        lemma_types_fault(g, module, types, (i + 1) as nat, types.len());
    }
}

/// A path in a type expression, written at a place, leads nowhere.
pub open spec fn has_undefined(g: TypeGraph, module: u32, e: TypeExpr, span: SourceSpan) -> bool
    decreases e, 0nat,
{
    match e {
        TypeExpr::Primitive(_, _) => false,
        TypeExpr::Ptr(ty) => has_undefined(g, module, *ty.pointee, span),
        TypeExpr::Array(ty) => has_undefined(g, module, *ty.elem, span),
        TypeExpr::Struct(ty) => fields_have_undefined(
            g,
            module,
            ty.fields@,
            span,
            ty.fields@.len(),
        ),
        TypeExpr::Ref(place, path) => g.target(module, path@) is Undefined && place == span,
    }
}

pub open spec fn fields_have_undefined(
    g: TypeGraph,
    module: u32,
    fields: Seq<StructField>,
    span: SourceSpan,
    k: nat,
) -> bool
    decreases fields, k,
{
    if k == 0 || k > fields.len() {
        false
    } else {
        fields_have_undefined(g, module, fields, span, (k - 1) as nat) || has_undefined(
            g,
            module,
            fields[k - 1].ty,
            span,
        )
    }
}

/// A path in the declaration of a type leads nowhere.
pub open spec fn decl_has_undefined(g: TypeGraph, a: int, span: SourceSpan) -> bool {
    match g.decl(a) {
        TypeDecl::Alias(alias) => has_undefined(g, g.module(a), alias.ty, span),
        TypeDecl::Enum(ty) => exists|i: int|
            0 <= i < ty.variants@.len() && ((#[trigger] ty.variants@[i]).value_ty matches Some(e)
                && has_undefined(g, g.module(a), e, span)),
    }
}

/// Type `t` is what is wrong: it is private, or a path in its declaration leads nowhere.
pub open spec fn is_culprit(g: TypeGraph, t: int, fault: TypeFault) -> bool {
    match fault {
        TypeFault::Private { span: _, defined } => !g.is_public(t) && defined == g.defined(t),
        TypeFault::Undefined { span } => decl_has_undefined(g, t, span),
    }
}

/// What is wrong with an expression: a path in it leads nowhere, or it refers to the first of a
/// chain of types whose last is what is wrong.
pub open spec fn has_cause(
    g: TypeGraph,
    module: u32,
    e: TypeExpr,
    chain: Seq<int>,
    fault: TypeFault,
) -> bool {
    if chain.len() == 0 {
        fault matches TypeFault::Undefined { span } && has_undefined(g, module, e, span)
    } else {
        is_type_chain(g, chain) && refers(g, module, e, chain[0]) && is_culprit(
            g,
            chain.last(),
            fault,
        )
    }
}

proof fn lemma_expr_cause(
    g: TypeGraph,
    visiting: Seq<bool>,
    module: u32,
    e: TypeExpr,
    fault: TypeFault,
) -> (chain: Seq<int>)
    requires
        expr_fault(g, visiting, module, e) == Some(fault),
    ensures
        has_cause(g, module, e, chain, fault),
    decreases left(visiting), 0nat, e, 0nat,
{
    match e {
        TypeExpr::Primitive(_, _) => Seq::empty(),
        TypeExpr::Ptr(ty) => lemma_expr_cause(g, visiting, module, *ty.pointee, fault),
        TypeExpr::Array(ty) => lemma_expr_cause(g, visiting, module, *ty.elem, fault),
        TypeExpr::Struct(ty) => lemma_fields_cause(
            g,
            visiting,
            module,
            ty.fields@,
            ty.fields@.len(),
            fault,
        ),
        TypeExpr::Ref(span, path) => match g.target(module, path@) {
            RefTarget::Type(t) => {
                let i = reference_index(g.refs, module, path@, g.refs.len())->0;
                lemma_type_index(g.types, g.refs[i as int].target->0, g.types.len());
                if !g.is_public(t) {
                    let chain = seq![t];
                    assert(chain.last() == t);
                    chain
                } else {
                    lemma_unvisited(visiting, t, visiting.len());
                    lemma_decl_cause(g, visiting.update(t, true), t, fault)
                }
            },
            _ => Seq::empty(),
        },
    }
}

proof fn lemma_fields_cause(
    g: TypeGraph,
    visiting: Seq<bool>,
    module: u32,
    fields: Seq<StructField>,
    k: nat,
    fault: TypeFault,
) -> (chain: Seq<int>)
    requires
        fields_fault(g, visiting, module, fields, k) == Some(fault),
    ensures
        if chain.len() == 0 {
            fault matches TypeFault::Undefined { span } && fields_have_undefined(
                g,
                module,
                fields,
                span,
                k,
            )
        } else {
            is_type_chain(g, chain) && fields_refer(g, module, fields, chain[0], k) && is_culprit(
                g,
                chain.last(),
                fault,
            )
        },
    decreases left(visiting), 0nat, fields, k,
{
    if fields_fault(g, visiting, module, fields, (k - 1) as nat) is Some {
        lemma_fields_cause(g, visiting, module, fields, (k - 1) as nat, fault)
    } else {
        lemma_expr_cause(g, visiting, module, fields[k - 1].ty, fault)
    }
}

/// A chain from a type on to what is wrong.
proof fn lemma_decl_cause(g: TypeGraph, visiting: Seq<bool>, a: int, fault: TypeFault) -> (chain:
    Seq<int>)
    requires
        0 <= a < g.types.len(),
        decl_fault(g, visiting, g.module(a), g.decl(a)) == Some(fault),
    ensures
        is_type_chain(g, chain),
        chain[0] == a,
        is_culprit(g, chain.last(), fault),
    decreases left(visiting), 2nat, g.decl(a), 0nat,
{
    let (rest, e) = match g.decl(a) {
        TypeDecl::Alias(alias) => (
            lemma_expr_cause(g, visiting, g.module(a), alias.ty, fault),
            alias.ty,
        ),
        TypeDecl::Enum(ty) => {
            let (i, rest) = lemma_variants_cause(
                g,
                visiting,
                g.module(a),
                ty.variants@,
                ty.variants@.len(),
                fault,
            );
            assert(ty.variants@[i].value_ty is Some);
            (rest, ty.variants@[i].value_ty->0)
        },
    };
    let chain = seq![a] + rest;
    assert forall|i: int| 0 <= i < chain.len() implies 0 <= #[trigger] chain[i] < g.types.len() by {
        if i > 0 {
            assert(chain[i] == rest[i - 1]);
        }
    }
    assert forall|i: int| 0 <= i < chain.len() - 1 implies leads(
        g,
        #[trigger] chain[i],
        chain[i + 1],
    ) by {
        assert(chain[i + 1] == rest[i]);
        if i > 0 {
            assert(chain[i] == rest[i - 1]);
            assert(leads(g, rest[i - 1], rest[i - 1 + 1]));
        }
    }
    if rest.len() > 0 {
        assert(chain.last() == rest.last());
    }
    chain
}

proof fn lemma_variants_cause(
    g: TypeGraph,
    visiting: Seq<bool>,
    module: u32,
    variants: Seq<Variant>,
    k: nat,
    fault: TypeFault,
) -> (res: (int, Seq<int>))
    requires
        k <= variants.len(),
        variants_fault(g, visiting, module, variants, k) == Some(fault),
    ensures
        0 <= res.0 < k,
        variants[res.0].value_ty matches Some(e) && has_cause(g, module, e, res.1, fault),
    decreases left(visiting), 1nat, variants, k,
{
    if variants_fault(g, visiting, module, variants, (k - 1) as nat) is Some {
        lemma_variants_cause(g, visiting, module, variants, (k - 1) as nat, fault)
    } else {
        let e = variants[k - 1].value_ty->0;
        (k - 1, lemma_expr_cause(g, visiting, module, e, fault))
    }
}

/// Where an expression cannot be exported, it leads to a private type, or to a path that leads
/// nowhere.
pub proof fn law_refused_types_have_a_cause(
    g: TypeGraph,
    module: u32,
    e: TypeExpr,
    fault: TypeFault,
)
    requires
        expr_fault(g, no_visits(g.types.len()), module, e) == Some(fault),
    ensures
        exists|chain: Seq<int>| #[trigger] has_cause(g, module, e, chain, fault),
{
    let chain = lemma_expr_cause(g, no_visits(g.types.len()), module, e, fault);
    assert(has_cause(g, module, e, chain, fault));
}

/// What is wrong with a type is told at the place where it is wrong, whatever exports the type; that
/// the type is private is told in other words for a signature than for a type.
pub proof fn law_faults_keep_their_place(fault: TypeFault)
    ensures
        ({
            let signature = ExportedTypeUse::ProcedureSignature.fault(fault);
            let declaration = ExportedTypeUse::TypeDeclaration.fault(fault);
            match fault {
                TypeFault::Undefined { span } => signature == declaration && signature
                    == (ExportFault::Undefined { span }),
                TypeFault::Private { span, defined } => signature != declaration && signature
                    == (ExportFault::PrivateTypeInExportedSignature { span, defined })
                    && declaration == (ExportFault::PrivateTypeInExportedType { span, defined }),
            }
        }),
{
}

/// What can be exported refers to nothing that is not defined.
pub proof fn law_exported_types_are_defined(
    g: TypeGraph,
    visiting: Seq<bool>,
    module: u32,
    e: TypeExpr,
    span: SourceSpan,
)
    requires
        expr_fault(g, visiting, module, e) is None,
    ensures
        !has_undefined(g, module, e, span),
    decreases e, 0nat,
{
    match e {
        TypeExpr::Ptr(ty) => {
            law_exported_types_are_defined(g, visiting, module, *ty.pointee, span);
        },
        TypeExpr::Array(ty) => {
            law_exported_types_are_defined(g, visiting, module, *ty.elem, span);
        },
        TypeExpr::Struct(ty) => {
            lemma_fields_defined(g, visiting, module, ty.fields@, span, ty.fields@.len());
        },
        _ => {},
    }
}

proof fn lemma_fields_defined(
    g: TypeGraph,
    visiting: Seq<bool>,
    module: u32,
    fields: Seq<StructField>,
    span: SourceSpan,
    k: nat,
)
    requires
        k <= fields.len(),
        fields_fault(g, visiting, module, fields, k) is None,
    ensures
        !fields_have_undefined(g, module, fields, span, k),
    decreases fields, k,
{
    if k > 0 {
        lemma_fields_defined(g, visiting, module, fields, span, (k - 1) as nat);
        law_exported_types_are_defined(g, visiting, module, fields[k - 1].ty, span);
    }
}

} // verus!
