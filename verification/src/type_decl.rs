//! Declarations of types.

use vstd::prelude::*;

use crate::felt::MODULUS;
use crate::path::SourceSpan;
use crate::type_expr::{ExprModel, TypeExpr};
use crate::types::{Type, TypeModel};

verus! {

/// Who can use an item.
#[derive(Clone, Copy, PartialEq, Eq, Structural, Debug)]
pub enum Visibility {
    Public,
    Private,
}

impl Visibility {
    pub fn is_public(&self) -> (res: bool)
        ensures
            res == (*self is Public),
    {
        match self {
            Visibility::Public => true,
            Visibility::Private => false,
        }
    }
}

/// A name where it is written.
pub struct Ident {
    pub span: SourceSpan,
    pub name: String,
}

/// A named type.
pub struct TypeAlias {
    pub span: SourceSpan,
    pub docs: Option<String>,
    pub visibility: Visibility,
    pub name: Ident,
    pub ty: TypeExpr,
}

impl TypeAlias {
    /// A type alias at the place of its name.
    pub fn new(visibility: Visibility, name: Ident, ty: TypeExpr) -> (alias: TypeAlias)
        ensures
            alias == (TypeAlias { span: name.span, docs: None, visibility, name, ty }),
    {
        TypeAlias { span: name.span, docs: None, visibility, name, ty }
    }

    pub fn with_docs(self, docs: Option<String>) -> (alias: TypeAlias)
        ensures
            alias == (TypeAlias { docs, ..self }),
    {
        TypeAlias {
            span: self.span,
            docs,
            visibility: self.visibility,
            name: self.name,
            ty: self.ty,
        }
    }

    pub fn with_span(self, span: SourceSpan) -> (alias: TypeAlias)
        ensures
            alias == (TypeAlias { span, ..self }),
    {
        let mut alias = self;
        alias.span = span;
        alias
    }

    pub fn set_span(&mut self, span: SourceSpan)
        ensures
            *final(self) == (TypeAlias { span, ..*old(self) }),
    {
        self.span = span;
    }

    pub fn docs(&self) -> (docs: &Option<String>)
        ensures
            *docs == self.docs,
    {
        &self.docs
    }

    pub fn name(&self) -> (name: &Ident)
        ensures
            *name == self.name,
    {
        &self.name
    }

    pub fn visibility(&self) -> (visibility: Visibility)
        ensures
            visibility == self.visibility,
    {
        self.visibility
    }
}

/// The value of a constant: a number, or an expression that is not folded yet.
pub enum ConstantExpr {
    Int(SourceSpan, u64),
    Unfolded(SourceSpan, String),
}

impl ConstantExpr {
    pub open spec fn place(self) -> SourceSpan {
        match self {
            ConstantExpr::Int(span, _) => span,
            ConstantExpr::Unfolded(span, _) => span,
        }
    }

    pub fn span(&self) -> (span: SourceSpan)
        ensures
            span == self.place(),
    {
        match self {
            ConstantExpr::Int(span, _) => *span,
            ConstantExpr::Unfolded(span, _) => *span,
        }
    }
}

/// What is wrong with an enumeration.
#[derive(PartialEq, Eq, Debug)]
pub enum SemanticAnalysisError {
    /// A discriminant is no value of the enumeration's type.
    InvalidEnumDiscriminant { span: SourceSpan, repr: Type },
    /// Discriminants cannot be of the type.
    InvalidEnumRepr { span: SourceSpan },
}

/// A variant of an enumeration.
pub struct Variant {
    pub span: SourceSpan,
    pub docs: Option<String>,
    pub name: Ident,
    /// The type of what the variant holds.
    pub value_ty: Option<TypeExpr>,
    pub discriminant: ConstantExpr,
}

/// The number of values that a discriminant of a type can have. Types of more than 64 bits, and
/// those that are no integers, cannot be discriminants.
pub open spec fn discriminant_count(ty: TypeModel) -> Option<nat> {
    match ty {
        TypeModel::Felt | TypeModel::I64 | TypeModel::U64 => Some(MODULUS as nat),
        TypeModel::I1 => Some(2),
        TypeModel::I8 | TypeModel::U8 => Some(0x100),
        TypeModel::I16 | TypeModel::U16 => Some(0x1_0000),
        TypeModel::I32 | TypeModel::U32 => Some(0x1_0000_0000),
        _ => None,
    }
}

/// A discriminant is folded, and is a value of a type that discriminants can have.
pub open spec fn discriminant_fits(discriminant: ConstantExpr, ty: TypeModel) -> bool {
    discriminant matches ConstantExpr::Int(_, value) && (discriminant_count(ty) matches Some(count)
        && value < count)
}

impl Variant {
    /// A variant at the place of its name.
    pub fn new(name: Ident, discriminant: ConstantExpr, payload: Option<TypeExpr>) -> (variant:
        Variant)
        ensures
            variant == (Variant {
                span: name.span,
                docs: None,
                name,
                value_ty: payload,
                discriminant,
            }),
    {
        Variant { span: name.span, docs: None, name, value_ty: payload, discriminant }
    }

    pub fn with_span(self, span: SourceSpan) -> (variant: Variant)
        ensures
            variant == (Variant { span, ..self }),
    {
        let mut variant = self;
        variant.span = span;
        variant
    }

    pub fn with_docs(self, docs: Option<String>) -> (variant: Variant)
        ensures
            variant == (Variant { docs, ..self }),
    {
        Variant {
            span: self.span,
            docs,
            name: self.name,
            value_ty: self.value_ty,
            discriminant: self.discriminant,
        }
    }

    /// Checks that the discriminant is folded and is a value of `ty`, which has to be an integer
    /// type of up to 64 bits.
    pub fn assert_instance_of(&self, ty: &Type) -> (res: Result<(), SemanticAnalysisError>)
        ensures
            match res {
                Ok(_) => discriminant_fits(self.discriminant, ty@),
                Err(SemanticAnalysisError::InvalidEnumDiscriminant { span, repr }) => {
                    &&& !discriminant_fits(self.discriminant, ty@)
                    &&& self.discriminant is Unfolded || discriminant_count(ty@) is Some
                    &&& span == self.discriminant.place()
                    &&& repr@ == ty@
                },
                Err(SemanticAnalysisError::InvalidEnumRepr { span }) => {
                    &&& self.discriminant is Int
                    &&& discriminant_count(ty@) is None
                    &&& span == self.span
                },
            },
    {
        let (span, value): (SourceSpan, u64) = match &self.discriminant {
            ConstantExpr::Int(span, value) => (*span, *value),
            ConstantExpr::Unfolded(span, _) => {
                return Err(
                    SemanticAnalysisError::InvalidEnumDiscriminant { span: *span, repr: ty.copy() },
                );
            },
        };
        let max: u64 = match ty {
            Type::Felt | Type::I64 | Type::U64 => MODULUS - 1,
            Type::I1 => 1,
            Type::I8 | Type::U8 => 0xff,
            Type::I16 | Type::U16 => 0xffff,
            Type::I32 | Type::U32 => 0xffff_ffff,
            _ => {
                return Err(SemanticAnalysisError::InvalidEnumRepr { span: self.span });
            },
        };
        if value <= max {
            Ok(())
        } else {
            Err(SemanticAnalysisError::InvalidEnumDiscriminant { span, repr: ty.copy() })
        }
    }
}

/// An enumeration: a name for an integer type, and names for some of its values.
pub struct EnumType {
    pub span: SourceSpan,
    pub docs: Option<String>,
    pub visibility: Visibility,
    pub name: Ident,
    pub ty: Type,
    pub variants: Vec<Variant>,
}

impl EnumType {
    /// Enumerations are of integer types.
    pub open spec fn wf(self) -> bool {
        self.ty@.is_integer()
    }

    /// An enumeration at the place of its name.
    pub fn new(visibility: Visibility, name: Ident, ty: Type, variants: Vec<Variant>) -> (res:
        EnumType)
        requires
            ty@.is_integer(),
        ensures
            res == (EnumType { span: name.span, docs: None, visibility, name, ty, variants }),
            res.wf(),
    {
        EnumType { span: name.span, docs: None, visibility, name, ty, variants }
    }

    pub fn with_docs(self, docs: Option<String>) -> (res: EnumType)
        ensures
            res == (EnumType { docs, ..self }),
    {
        EnumType {
            span: self.span,
            docs,
            visibility: self.visibility,
            name: self.name,
            ty: self.ty,
            variants: self.variants,
        }
    }

    pub fn with_span(self, span: SourceSpan) -> (res: EnumType)
        ensures
            res == (EnumType { span, ..self }),
    {
        let mut res = self;
        res.span = span;
        res
    }

    pub fn set_span(&mut self, span: SourceSpan)
        ensures
            *final(self) == (EnumType { span, ..*old(self) }),
    {
        self.span = span;
    }

    /// Tells whether the variants are values of the discriminant's type: there are some, and none
    /// holds anything.
    pub fn is_c_like(&self) -> (res: bool)
        ensures
            res == (self.variants@.len() > 0 && forall|i: int|
                0 <= i < self.variants@.len() ==> (#[trigger] self.variants@[i]).value_ty is None),
    {
        if self.variants.len() == 0 {
            return false;
        }
        let mut i: usize = 0;
        while i < self.variants.len()
            invariant
                i <= self.variants@.len(),
                forall|k: int| 0 <= k < i ==> (#[trigger] self.variants@[k]).value_ty is None,
            decreases self.variants@.len() - i,
        {
            if self.variants[i].value_ty.is_some() {
                assert(!(self.variants@[i as int].value_ty is None));
                return false;
            }
            i += 1;
        }
        true
    }

    pub fn name(&self) -> (name: &Ident)
        ensures
            *name == self.name,
    {
        &self.name
    }

    pub fn visibility(&self) -> (visibility: Visibility)
        ensures
            visibility == self.visibility,
    {
        self.visibility
    }

    pub fn docs(&self) -> (docs: &Option<String>)
        ensures
            *docs == self.docs,
    {
        &self.docs
    }

    /// The type of the discriminants.
    pub fn ty(&self) -> (ty: &Type)
        ensures
            *ty == self.ty,
    {
        &self.ty
    }

    /// The variants, to be changed.
    pub fn variants_mut(&mut self) -> (variants: &mut Vec<Variant>)
        ensures
            *variants == old(self).variants,
            *final(self) == (EnumType { variants: *final(variants), ..*old(self) }),
    {
        &mut self.variants
    }

    pub fn variants(&self) -> (variants: &Vec<Variant>)
        ensures
            *variants == self.variants,
    {
        &self.variants
    }

    /// The name for the type, and the variants.
    pub fn into_parts(self) -> (parts: (TypeAlias, Vec<Variant>))
        ensures
            parts.0 == (TypeAlias {
                span: self.span,
                docs: self.docs,
                visibility: self.visibility,
                name: self.name,
                ty: TypeExpr::Primitive(self.span, self.ty),
            }),
            parts.1 == self.variants,
    {
        let EnumType { span, docs, visibility, name, ty, variants } = self;
        (TypeAlias { span, docs, visibility, name, ty: TypeExpr::Primitive(span, ty) }, variants)
    }
}

/// A declaration of a type.
pub enum TypeDecl {
    Alias(TypeAlias),
    Enum(EnumType),
}

impl TypeDecl {
    pub fn with_docs(self, docs: Option<String>) -> (decl: TypeDecl)
        ensures
            decl == (match self {
                TypeDecl::Alias(ty) => TypeDecl::Alias(TypeAlias { docs, ..ty }),
                TypeDecl::Enum(ty) => TypeDecl::Enum(EnumType { docs, ..ty }),
            }),
    {
        match self {
            TypeDecl::Alias(ty) => TypeDecl::Alias(ty.with_docs(docs)),
            TypeDecl::Enum(ty) => TypeDecl::Enum(ty.with_docs(docs)),
        }
    }

    pub fn name(&self) -> (name: &Ident)
        ensures
            *name == (match self {
                TypeDecl::Alias(ty) => ty.name,
                TypeDecl::Enum(ty) => ty.name,
            }),
    {
        match self {
            TypeDecl::Alias(ty) => ty.name(),
            TypeDecl::Enum(ty) => ty.name(),
        }
    }

    pub fn visibility(&self) -> (visibility: Visibility)
        ensures
            visibility == (match self {
                TypeDecl::Alias(ty) => ty.visibility,
                TypeDecl::Enum(ty) => ty.visibility,
            }),
    {
        match self {
            TypeDecl::Alias(ty) => ty.visibility,
            TypeDecl::Enum(ty) => ty.visibility,
        }
    }

    pub fn docs(&self) -> (docs: &Option<String>)
        ensures
            *docs == (match self {
                TypeDecl::Alias(ty) => ty.docs,
                TypeDecl::Enum(ty) => ty.docs,
            }),
    {
        match self {
            TypeDecl::Alias(ty) => &ty.docs,
            TypeDecl::Enum(ty) => &ty.docs,
        }
    }

    /// The type that is declared: an enumeration is its discriminant.
    pub fn ty(&self) -> (ty: TypeExpr)
        ensures
            ty@ == (match self {
                TypeDecl::Alias(ty) => ty.ty@,
                TypeDecl::Enum(ty) => ExprModel::Primitive(ty.span, ty.ty@),
            }),
    {
        match self {
            TypeDecl::Alias(ty) => ty.ty.copy(),
            TypeDecl::Enum(ty) => TypeExpr::Primitive(ty.span, ty.ty.copy()),
        }
    }

    pub fn span(&self) -> (span: SourceSpan)
        ensures
            span == (match self {
                TypeDecl::Alias(ty) => ty.span,
                TypeDecl::Enum(ty) => ty.span,
            }),
    {
        match self {
            TypeDecl::Alias(ty) => ty.span,
            TypeDecl::Enum(ty) => ty.span,
        }
    }
}

/// A discriminant fits a type if and only if the bits of the type can hold it; those of the widest
/// types, and field elements, are held by one field element.
pub proof fn law_discriminants_fit_the_bits(span: SourceSpan, value: u64, ty: TypeModel)
    requires
        ty.is_integer(),
        ty.size_in_bits()->0 <= 64,
    ensures
        discriminant_fits(ConstantExpr::Int(span, value), ty) <==> (value < MODULUS && (ty is Felt
            || value < vstd::arithmetic::power2::pow2(ty.size_in_bits()->0))),
{
    vstd::arithmetic::power2::lemma2_to64();
}

} // verus!
