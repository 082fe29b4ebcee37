//! When types and their declarations are the same.
//!
//! Where a part is written does not matter, and a pointer without an address space points to
//! elements.

use vstd::prelude::*;
use vstd::string::*;

use crate::type_decl::{ConstantExpr, EnumType, TypeAlias, TypeDecl, Variant};
use crate::type_expr::{ExprModel, FieldExpr, FunctionType, StructType, TypeExpr};
use crate::types::{
    lemma_function_view, name_model, type_models, AddressSpace, Signature, StructLayout, Type,
};

verus! {

// TYPES
// ================================================================================================

fn same_name(a: &Option<String>, b: &Option<String>) -> (res: bool)
    ensures
        res == (name_model(*a) == name_model(*b)),
{
    match (a, b) {
        (Some(a), Some(b)) => *a == *b,
        (None, None) => true,
        _ => false,
    }
}

impl Type {
    /// Tells whether two types are the same.
    pub fn same_as(&self, other: &Type) -> (res: bool)
        ensures
            res == (self@ == other@),
        decreases self,
    {
        match self {
            Type::Unknown => matches!(other, Type::Unknown),
            Type::Never => matches!(other, Type::Never),
            Type::I1 => matches!(other, Type::I1),
            Type::I8 => matches!(other, Type::I8),
            Type::U8 => matches!(other, Type::U8),
            Type::I16 => matches!(other, Type::I16),
            Type::U16 => matches!(other, Type::U16),
            Type::I32 => matches!(other, Type::I32),
            Type::U32 => matches!(other, Type::U32),
            Type::I64 => matches!(other, Type::I64),
            Type::U64 => matches!(other, Type::U64),
            Type::I128 => matches!(other, Type::I128),
            Type::U128 => matches!(other, Type::U128),
            Type::U256 => matches!(other, Type::U256),
            Type::F64 => matches!(other, Type::F64),
            Type::Felt => matches!(other, Type::Felt),
            Type::Ptr { addrspace, pointee } => match other {
                Type::Ptr { addrspace: space, pointee: target } => *addrspace == *space
                    && pointee.same_as(target),
                _ => false,
            },
            Type::Struct(layout) => match other {
                Type::Struct(that) => layout.same_as(that),
                _ => false,
            },
            Type::Enum(layout) => match other {
                Type::Enum(that) => layout.name == that.name && layout.is_c_like == that.is_c_like
                    && layout.size == that.size && layout.align == that.align
                    && layout.discriminant.same_as(&that.discriminant),
                _ => false,
            },
            Type::Array { elem, len } => match other {
                Type::Array { elem: that, len: n } => *len == *n && elem.same_as(that),
                _ => false,
            },
            Type::List { elem, elem_text } => match other {
                Type::List { elem: that, elem_text: text } => *elem_text == *text && elem.same_as(
                    that,
                ),
                _ => false,
            },
            Type::Function(signature) => match other {
                Type::Function(that) => {
                    proof {
                        lemma_function_view(**signature);
                        lemma_function_view(**that);
                    }
                    signature.same_as(that)
                },
                _ => false,
            },
        }
    }
}

impl StructLayout {
    /// Tells whether two structures are the same.
    pub fn same_as(&self, other: &StructLayout) -> (res: bool)
        ensures
            res == (self@ == other@),
        decreases self,
    {
        if !same_name(&self.name, &other.name) || self.repr != other.repr || self.size != other.size
        {
            return false;
        }
        if self.fields.len() != other.fields.len() {
            assert(self@.fields.len() != other@.fields.len());
            return false;
        }
        let mut i: usize = 0;
        while i < self.fields.len()
            invariant
                i <= self.fields@.len() == other.fields@.len(),
                forall|k: int| 0 <= k < i ==> (#[trigger] self@.fields[k]) == other@.fields[k],
            decreases self.fields@.len() - i,
        {
            let a = &self.fields[i];
            let b = &other.fields[i];
            assert(decreases_to!(*self => self.fields));
            assert(self@.fields[i as int] == a@ && other@.fields[i as int] == b@);
            if !same_name(&a.name, &b.name) || a.align != b.align || a.offset != b.offset
                || !a.ty.same_as(&b.ty) {
                return false;
            }
            i += 1;
        }
        assert(self@.fields =~= other@.fields);
        true
    }
}

impl Signature {
    fn same_types(a: &Vec<Type>, b: &Vec<Type>) -> (res: bool)
        ensures
            res == (type_models(a@) == type_models(b@)),
        decreases a,
    {
        if a.len() != b.len() {
            assert(type_models(a@).len() != type_models(b@).len());
            return false;
        }
        let mut i: usize = 0;
        while i < a.len()
            invariant
                i <= a@.len() == b@.len(),
                forall|k: int| 0 <= k < i ==> (#[trigger] type_models(a@)[k]) == type_models(b@)[k],
            decreases a@.len() - i,
        {
            assert(type_models(a@)[i as int] == a@[i as int]@);
            assert(type_models(b@)[i as int] == b@[i as int]@);
            if !a[i].same_as(&b[i]) {
                return false;
            }
            i += 1;
        }
        assert(type_models(a@) =~= type_models(b@));
        true
    }

    /// Tells whether two signatures are the same.
    pub fn same_as(&self, other: &Signature) -> (res: bool)
        ensures
            res == (self@ == other@),
        decreases self,
    {
        self.cc == other.cc && Signature::same_types(&self.params, &other.params)
            && Signature::same_types(&self.results, &other.results)
    }
}

// TYPE EXPRESSIONS
// ================================================================================================

/// Where a pointer points: to elements, if nothing is said.
pub open spec fn space_of(addrspace: Option<AddressSpace>) -> AddressSpace {
    match addrspace {
        Some(space) => space,
        None => AddressSpace::Element,
    }
}

/// Type expressions say the same.
pub open spec fn alike(a: ExprModel, b: ExprModel) -> bool
    decreases a,
{
    match (a, b) {
        (ExprModel::Primitive(_, x), ExprModel::Primitive(_, y)) => x == y,
        (ExprModel::Ptr(_, s, x), ExprModel::Ptr(_, t, y)) => space_of(s) == space_of(t) && alike(*x, *y),
        (ExprModel::Array(_, x, n), ExprModel::Array(_, y, m)) => n == m && alike(*x, *y),
        (ExprModel::Struct(_, n, r, f), ExprModel::Struct(_, m, q, g)) => {
            &&& n == m
            &&& r == q
            &&& f.len() == g.len()
            &&& forall|i: int| 0 <= i < f.len() ==> field_alike(#[trigger] f[i], g[i])
        },
        (ExprModel::Ref(_, p), ExprModel::Ref(_, q)) => p == q,
        _ => false,
    }
}

/// Fields say the same.
pub open spec fn field_alike(a: FieldExpr, b: FieldExpr) -> bool
    decreases a,
{
    a.name == b.name && alike(a.ty, b.ty)
}

/// To say the same is an equivalence: everything is like itself.
pub proof fn law_alike_reflexive(a: ExprModel)
    ensures
        alike(a, a),
    decreases a,
{
    match a {
        ExprModel::Ptr(_, _, x) => law_alike_reflexive(*x),
        ExprModel::Array(_, x, _) => law_alike_reflexive(*x),
        ExprModel::Struct(_, _, _, f) => {
            assert forall|i: int| 0 <= i < f.len() implies field_alike(#[trigger] f[i], f[i]) by {
                law_alike_reflexive(f[i].ty);
            }
        },
        _ => {},
    }
}

/// What is like another is so the other way round.
pub proof fn law_alike_symmetric(a: ExprModel, b: ExprModel)
    ensures
        alike(a, b) == alike(b, a),
    decreases a,
{
    match (a, b) {
        (ExprModel::Ptr(_, _, x), ExprModel::Ptr(_, _, y)) => law_alike_symmetric(*x, *y),
        (ExprModel::Array(_, x, _), ExprModel::Array(_, y, _)) => law_alike_symmetric(*x, *y),
        (ExprModel::Struct(_, _, _, f), ExprModel::Struct(_, _, _, g)) => {
            if f.len() == g.len() {
                assert forall|i: int| 0 <= i < f.len() implies field_alike(#[trigger] f[i], g[i])
                    == field_alike(g[i], f[i]) by {
                    law_alike_symmetric(f[i].ty, g[i].ty);
                }
                if alike(a, b) {
                    assert forall|i: int| 0 <= i < g.len() implies field_alike(
                        #[trigger] g[i],
                        f[i],
                    ) by {
                        assert(field_alike(f[i], g[i]));
                    }
                }
                if alike(b, a) {
                    assert forall|i: int| 0 <= i < f.len() implies field_alike(
                        #[trigger] f[i],
                        g[i],
                    ) by {
                        assert(field_alike(g[i], f[i]));
                    }
                }
            }
        },
        _ => {},
    }
}

/// What is like a second that is like a third is like the third.
pub proof fn law_alike_transitive(a: ExprModel, b: ExprModel, c: ExprModel)
    requires
        alike(a, b),
        alike(b, c),
    ensures
        alike(a, c),
    decreases a,
{
    match (a, b, c) {
        (ExprModel::Ptr(_, _, x), ExprModel::Ptr(_, _, y), ExprModel::Ptr(_, _, z)) => {
            law_alike_transitive(*x, *y, *z);
        },
        (ExprModel::Array(_, x, _), ExprModel::Array(_, y, _), ExprModel::Array(_, z, _)) => {
            law_alike_transitive(*x, *y, *z);
        },
        (
            ExprModel::Struct(_, _, _, f),
            ExprModel::Struct(_, _, _, g),
            ExprModel::Struct(_, _, _, h),
        ) => {
            assert forall|i: int| 0 <= i < f.len() implies field_alike(#[trigger] f[i], h[i]) by {
                assert(field_alike(f[i], g[i]));
                assert(field_alike(g[i], h[i]));
                law_alike_transitive(f[i].ty, g[i].ty, h[i].ty);
            }
        },
        _ => {},
    }
}

impl TypeExpr {
    /// Tells whether two type expressions say the same.
    pub fn same_as(&self, other: &TypeExpr) -> (res: bool)
        ensures
            res == alike(self@, other@),
        decreases self,
    {
        match self {
            TypeExpr::Primitive(_, ty) => match other {
                TypeExpr::Primitive(_, that) => ty.same_as(that),
                _ => false,
            },
            TypeExpr::Ptr(ptr) => match other {
                TypeExpr::Ptr(that) => ptr.address_space() == that.address_space()
                    && ptr.pointee.same_as(&that.pointee),
                _ => false,
            },
            TypeExpr::Array(array) => match other {
                TypeExpr::Array(that) => array.arity == that.arity && array.elem.same_as(
                    &that.elem,
                ),
                _ => false,
            },
            TypeExpr::Struct(ty) => match other {
                TypeExpr::Struct(that) => ty.same_as(that),
                _ => false,
            },
            TypeExpr::Ref(_, path) => match other {
                TypeExpr::Ref(_, that) => path.same_as(that),
                _ => false,
            },
        }
    }
}

impl StructType {
    /// Tells whether two structures say the same.
    pub fn same_as(&self, other: &StructType) -> (res: bool)
        ensures
            res == alike(TypeExpr::Struct(*self)@, TypeExpr::Struct(*other)@),
        decreases self,
    {
        let ghost a = TypeExpr::Struct(*self)@;
        let ghost b = TypeExpr::Struct(*other)@;
        let ghost f = a->Struct_3;
        let ghost g = b->Struct_3;
        if !same_name(&self.name, &other.name) || self.repr != other.repr || self.fields.len()
            != other.fields.len() {
            return false;
        }
        let mut i: usize = 0;
        while i < self.fields.len()
            invariant
                i <= self.fields@.len() == other.fields@.len(),
                f == TypeExpr::Struct(*self)@->Struct_3,
                g == TypeExpr::Struct(*other)@->Struct_3,
                f.len() == self.fields@.len(),
                g.len() == other.fields@.len(),
                a == TypeExpr::Struct(*self)@,
                b == TypeExpr::Struct(*other)@,
                forall|k: int| 0 <= k < i ==> field_alike(#[trigger] f[k], g[k]),
            decreases self.fields@.len() - i,
        {
            let x = &self.fields[i];
            let y = &other.fields[i];
            assert(decreases_to!(*self => self.fields));
            assert(f[i as int] == x@ && g[i as int] == y@);
            if x.name != y.name || !x.ty.same_as(&y.ty) {
                assert(!field_alike(f[i as int], g[i as int]));
                return false;
            }
            i += 1;
        }
        true
    }
}

pub open spec fn exprs_alike(a: Seq<TypeExpr>, b: Seq<TypeExpr>) -> bool {
    a.len() == b.len() && forall|i: int| 0 <= i < a.len() ==> alike((#[trigger] a[i])@, b[i]@)
}

fn same_exprs(a: &Vec<TypeExpr>, b: &Vec<TypeExpr>) -> (res: bool)
    ensures
        res == exprs_alike(a@, b@),
{
    if a.len() != b.len() {
        return false;
    }
    let mut i: usize = 0;
    while i < a.len()
        invariant
            i <= a@.len() == b@.len(),
            forall|k: int| 0 <= k < i ==> alike((#[trigger] a@[k])@, b@[k]@),
        decreases a@.len() - i,
    {
        if !a[i].same_as(&b[i]) {
            assert(!alike(a@[i as int]@, b@[i as int]@));
            return false;
        }
        i += 1;
    }
    true
}

impl FunctionType {
    /// Tells whether two signatures say the same.
    pub fn same_as(&self, other: &FunctionType) -> (res: bool)
        ensures
            res == (self.cc == other.cc && exprs_alike(self.args@, other.args@) && exprs_alike(
                self.results@,
                other.results@,
            )),
    {
        self.cc == other.cc && same_exprs(&self.args, &other.args) && same_exprs(
            &self.results,
            &other.results,
        )
    }
}

// DECLARATIONS
// ================================================================================================

/// Constants have the same value, or are written the same.
pub open spec fn constants_alike(a: ConstantExpr, b: ConstantExpr) -> bool {
    match (a, b) {
        (ConstantExpr::Int(_, x), ConstantExpr::Int(_, y)) => x == y,
        (ConstantExpr::Unfolded(_, x), ConstantExpr::Unfolded(_, y)) => x@ == y@,
        _ => false,
    }
}

pub open spec fn aliases_alike(a: TypeAlias, b: TypeAlias) -> bool {
    &&& a.visibility == b.visibility
    &&& a.name.name@ == b.name.name@
    &&& name_model(a.docs) == name_model(b.docs)
    &&& alike(a.ty@, b.ty@)
}

pub open spec fn variants_alike(a: Variant, b: Variant) -> bool {
    &&& a.name.name@ == b.name.name@
    &&& match (a.value_ty, b.value_ty) {
        (Some(x), Some(y)) => alike(x@, y@),
        (None, None) => true,
        _ => false,
    }
    &&& constants_alike(a.discriminant, b.discriminant)
    &&& name_model(a.docs) == name_model(b.docs)
}

pub open spec fn enums_alike(a: EnumType, b: EnumType) -> bool {
    &&& a.visibility == b.visibility
    &&& a.name.name@ == b.name.name@
    &&& name_model(a.docs) == name_model(b.docs)
    &&& a.ty@ == b.ty@
    &&& a.variants@.len() == b.variants@.len()
    &&& forall|i: int|
        0 <= i < a.variants@.len() ==> variants_alike(#[trigger] a.variants@[i], b.variants@[i])
}

impl ConstantExpr {
    fn same_as(&self, other: &ConstantExpr) -> (res: bool)
        ensures
            res == constants_alike(*self, *other),
    {
        match (self, other) {
            (ConstantExpr::Int(_, x), ConstantExpr::Int(_, y)) => *x == *y,
            (ConstantExpr::Unfolded(_, x), ConstantExpr::Unfolded(_, y)) => *x == *y,
            _ => false,
        }
    }
}

impl TypeAlias {
    /// Tells whether two aliases declare the same.
    pub fn same_as(&self, other: &TypeAlias) -> (res: bool)
        ensures
            res == aliases_alike(*self, *other),
    {
        self.visibility == other.visibility && self.name.name == other.name.name && same_name(
            &self.docs,
            &other.docs,
        ) && self.ty.same_as(&other.ty)
    }
}

impl Variant {
    /// Tells whether two variants declare the same.
    pub fn same_as(&self, other: &Variant) -> (res: bool)
        ensures
            res == variants_alike(*self, *other),
    {
        let same_value = match (&self.value_ty, &other.value_ty) {
            (Some(x), Some(y)) => x.same_as(y),
            (None, None) => true,
            _ => false,
        };
        same_value && self.name.name == other.name.name && same_name(&self.docs, &other.docs)
            && self.discriminant.same_as(&other.discriminant)
    }
}

impl EnumType {
    /// Tells whether two enumerations declare the same.
    pub fn same_as(&self, other: &EnumType) -> (res: bool)
        ensures
            res == enums_alike(*self, *other),
    {
        if self.visibility != other.visibility || self.name.name != other.name.name || !same_name(
            &self.docs,
            &other.docs,
        ) || !self.ty.same_as(&other.ty) || self.variants.len() != other.variants.len() {
            return false;
        }
        let mut i: usize = 0;
        while i < self.variants.len()
            invariant
                i <= self.variants@.len() == other.variants@.len(),
                forall|k: int|
                    0 <= k < i ==> variants_alike(
                        #[trigger] self.variants@[k],
                        other.variants@[k],
                    ),
            decreases self.variants@.len() - i,
        {
            if !self.variants[i].same_as(&other.variants[i]) {
                assert(!variants_alike(self.variants@[i as int], other.variants@[i as int]));
                return false;
            }
            i += 1;
        }
        true
    }
}

impl TypeDecl {
    /// Tells whether two declarations declare the same.
    pub fn same_as(&self, other: &TypeDecl) -> (res: bool)
        ensures
            res == (match (*self, *other) {
                (TypeDecl::Alias(a), TypeDecl::Alias(b)) => aliases_alike(a, b),
                (TypeDecl::Enum(a), TypeDecl::Enum(b)) => enums_alike(a, b),
                _ => false,
            }),
    {
        match (self, other) {
            (TypeDecl::Alias(a), TypeDecl::Alias(b)) => a.same_as(b),
            (TypeDecl::Enum(a), TypeDecl::Enum(b)) => a.same_as(b),
            _ => false,
        }
    }
}

/// What a type expression says, wherever it stands: a pointer that names no space is one to
/// elements.
pub open spec fn said(e: ExprModel) -> ExprModel
    decreases e,
{
    let nowhere = crate::path::SourceSpan::unknown_span();
    match e {
        ExprModel::Primitive(_, ty) => ExprModel::Primitive(nowhere, ty),
        ExprModel::Ptr(_, space, x) => ExprModel::Ptr(
            nowhere,
            match space {
                None => Some(AddressSpace::Element),
                _ => space,
            },
            Box::new(said(*x)),
        ),
        ExprModel::Array(_, x, n) => ExprModel::Array(nowhere, Box::new(said(*x)), n),
        ExprModel::Struct(_, name, repr, fields) => ExprModel::Struct(
            nowhere,
            name,
            repr,
            Seq::new(
                fields.len(),
                |i: int|
                    if 0 <= i < fields.len() {
                        FieldExpr { span: nowhere, name: fields[i].name, ty: said(fields[i].ty) }
                    } else {
                        arbitrary()
                    },
            ),
        ),
        ExprModel::Ref(_, path) => ExprModel::Ref(nowhere, path),
    }
}

/// Expressions are alike if and only if they say the same.
pub proof fn law_alike_says_the_same(a: ExprModel, b: ExprModel)
    ensures
        alike(a, b) <==> said(a) == said(b),
    decreases a,
{
    match (a, b) {
        (ExprModel::Ptr(_, _, x), ExprModel::Ptr(_, _, y)) => law_alike_says_the_same(*x, *y),
        (ExprModel::Array(_, x, _), ExprModel::Array(_, y, _)) => law_alike_says_the_same(*x, *y),
        (ExprModel::Struct(_, _, _, f), ExprModel::Struct(_, _, _, g)) => {
            let sf = said(a)->Struct_3;
            let sg = said(b)->Struct_3;
            if f.len() == g.len() {
                assert forall|i: int| 0 <= i < f.len() implies field_alike(#[trigger] f[i], g[i])
                    == (sf[i] == sg[i]) by {
                    law_alike_says_the_same(f[i].ty, g[i].ty);
                }
                if alike(a, b) {
                    assert forall|i: int| 0 <= i < sf.len() implies sf[i] == sg[i] by {
                        assert(field_alike(f[i], g[i]));
                    }
                    assert(sf =~= sg);
                }
                if said(a) == said(b) {
                    assert forall|i: int| 0 <= i < f.len() implies field_alike(
                        #[trigger] f[i],
                        g[i],
                    ) by {
                        assert(sf[i] == sg[i]);
                    }
                }
            } else {
                assert(sf.len() != sg.len());
            }
        },
        _ => {},
    }
}

/// Variants that say the same are instances of the same types, and carry payloads that say the same
/// or none.
pub proof fn law_alike_variants_fit_the_same_types(
    a: Variant,
    b: Variant,
    ty: crate::types::TypeModel,
)
    requires
        variants_alike(a, b),
    ensures
        crate::type_decl::discriminant_fits(a.discriminant, ty)
            == crate::type_decl::discriminant_fits(b.discriminant, ty),
        a.value_ty is Some <==> b.value_ty is Some,
        a.value_ty is Some ==> said(a.value_ty->0@) == said(b.value_ty->0@),
        variants_alike(b, a),
{
    if a.value_ty is Some {
        law_alike_says_the_same(a.value_ty->0@, b.value_ty->0@);
        law_alike_symmetric(a.value_ty->0@, b.value_ty->0@);
    }
}

/// Enumerations that say the same have the same variants in the same order, over the same type.
pub proof fn law_alike_enumerations_have_the_same_variants(a: EnumType, b: EnumType)
    requires
        enums_alike(a, b),
    ensures
        a.ty@ == b.ty@,
        a.variants@.len() == b.variants@.len(),
        forall|i: int|
            0 <= i < a.variants@.len() ==> (#[trigger] a.variants@[i]).name.name@
                == b.variants@[i].name.name@ && (a.variants@[i].value_ty is None
                <==> b.variants@[i].value_ty is None),
        enums_alike(b, a),
{
    assert forall|i: int| 0 <= i < b.variants@.len() implies variants_alike(
        #[trigger] b.variants@[i],
        a.variants@[i],
    ) by {
        assert(variants_alike(a.variants@[i], b.variants@[i]));
        law_alike_variants_fit_the_same_types(
            a.variants@[i],
            b.variants@[i],
            crate::types::TypeModel::Felt,
        );
    }
    assert forall|i: int| 0 <= i < a.variants@.len() implies (
    #[trigger] a.variants@[i]).name.name@ == b.variants@[i].name.name@ && (
    a.variants@[i].value_ty is None <==> b.variants@[i].value_ty is None) by {
        assert(variants_alike(a.variants@[i], b.variants@[i]));
    }
}

/// Aliases that say the same have the same name and visibility, and stand for expressions that say
/// the same.
pub proof fn law_alike_aliases_stand_for_the_same(a: TypeAlias, b: TypeAlias)
    requires
        aliases_alike(a, b),
    ensures
        a.name.name@ == b.name.name@,
        a.visibility == b.visibility,
        said(a.ty@) == said(b.ty@),
        aliases_alike(b, a),
{
    law_alike_says_the_same(a.ty@, b.ty@);
    law_alike_symmetric(a.ty@, b.ty@);
}

} // verus!
