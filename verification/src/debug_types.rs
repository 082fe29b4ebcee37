//! Types in debug information: rows that refer to one another by index.

use vstd::prelude::*;
use vstd::string::*;
use crate::text::{decimal, push_decimal};
use crate::type_expr::{ExprModel, FieldExpr, StructField, TypeExpr};
use crate::types::{
    copy_name, laid_out, name_model, named_models, FieldModel, NamedModel, NamedType, Signature,
    StructLayout, StructModel, Type, TypeModel, TypeRepr,
};

verus! {

#[derive(Clone, Copy, PartialEq, Eq, Structural, Debug)]
pub enum DebugPrimitiveType {
    Void,
    Bool,
    I8,
    U8,
    I16,
    U16,
    I32,
    U32,
    I64,
    U64,
    I128,
    U128,
    F64,
    Felt,
}

/// A field of a structure.
#[derive(Clone, Copy, PartialEq, Eq, Structural, Debug)]
pub struct DebugFieldInfo {
    pub name_idx: u32,
    pub type_idx: u32,
    pub offset: u32,
}

/// A row of the table of types.
pub enum DebugTypeInfo {
    Primitive(DebugPrimitiveType),
    Pointer { pointee_type_idx: u32 },
    Array { element_type_idx: u32, count: Option<u32> },
    Struct { name_idx: u32, size: u32, fields: Vec<DebugFieldInfo> },
    Function { return_type_idx: Option<u32>, param_type_indices: Vec<u32> },
    Unknown,
}

/// The contents of a [`DebugTypeInfo`].
pub ghost enum TypeRow {
    Primitive(DebugPrimitiveType),
    Pointer(u32),
    Array(u32, Option<u32>),
    Struct(u32, u32, Seq<DebugFieldInfo>),
    Function(Option<u32>, Seq<u32>),
    Unknown,
}

impl DebugTypeInfo {
    pub open spec fn view(&self) -> TypeRow {
        match self {
            DebugTypeInfo::Primitive(ty) => TypeRow::Primitive(*ty),
            DebugTypeInfo::Pointer { pointee_type_idx } => TypeRow::Pointer(*pointee_type_idx),
            DebugTypeInfo::Array { element_type_idx, count } => TypeRow::Array(
                *element_type_idx,
                *count,
            ),
            DebugTypeInfo::Struct { name_idx, size, fields } => TypeRow::Struct(
                *name_idx,
                *size,
                fields@,
            ),
            DebugTypeInfo::Function { return_type_idx, param_type_indices } => TypeRow::Function(
                *return_type_idx,
                param_type_indices@,
            ),
            DebugTypeInfo::Unknown => TypeRow::Unknown,
        }
    }
}

/// The types of debug information, and the names in them.
pub struct DebugTypesSection {
    pub strings: Vec<String>,
    pub types: Vec<DebugTypeInfo>,
}

/// The contents of a [`DebugTypesSection`].
pub ghost struct SectionModel {
    pub strings: Seq<Seq<char>>,
    pub types: Seq<TypeRow>,
}

impl DebugTypesSection {
    pub open spec fn view(&self) -> SectionModel {
        SectionModel {
            strings: Seq::new(self.strings@.len(), |i: int| self.strings@[i]@),
            types: Seq::new(self.types@.len(), |i: int| self.types@[i]@),
        }
    }
}

/// Why a type cannot be described.
#[derive(Clone, Copy, PartialEq, Eq, Structural, Debug)]
pub enum DebugTypeError {
    ArrayTooLarge,
    ReturnTypeTooBig,
    /// A table has no index left.
    TableFull,
    /// An entry refers to one that is not there.
    MissingEntry,
}

// TABLES
// ================================================================================================

/// Rows and names were appended.
pub open spec fn grown(before: SectionModel, after: SectionModel) -> bool {
    &&& before.strings.len() <= after.strings.len()
    &&& before.types.len() <= after.types.len()
    &&& forall|i: int|
        0 <= i < before.strings.len() ==> #[trigger] after.strings[i] == before.strings[i]
    &&& forall|i: int| 0 <= i < before.types.len() ==> #[trigger] after.types[i] == before.types[i]
}

/// The first of the first `k` names that is `text`.
pub open spec fn name_index(strings: Seq<Seq<char>>, text: Seq<char>, k: nat) -> Option<nat>
    decreases k,
{
    if k == 0 {
        None
    } else {
        match name_index(strings, text, (k - 1) as nat) {
            Some(i) => Some(i),
            None => if strings[k - 1] == text {
                Some((k - 1) as nat)
            } else {
                None
            },
        }
    }
}

/// Names with `text` among them: appended, unless it is there.
pub open spec fn with_name(strings: Seq<Seq<char>>, text: Seq<char>) -> (Seq<Seq<char>>, nat) {
    match name_index(strings, text, strings.len()) {
        Some(i) => (strings, i),
        None => (strings.push(text), strings.len()),
    }
}

/// A name that is there is not added again.
pub proof fn lemma_known_name(strings: Seq<Seq<char>>, text: Seq<char>)
    requires
        strings.contains(text),
    ensures
        with_name(strings, text).0 == strings,
{
    lemma_name_index(strings, text, strings.len());
}

proof fn lemma_name_index(strings: Seq<Seq<char>>, text: Seq<char>, k: nat)
    ensures
        match name_index(strings, text, k) {
            Some(i) => i < k && strings[i as int] == text,
            None => forall|i: int| 0 <= i < k ==> #[trigger] strings[i] != text,
        },
    decreases k,
{
    if k > 0 {
        lemma_name_index(strings, text, (k - 1) as nat);
    }
}

/// A name that was added is there, and the others stay.
pub proof fn lemma_with_name(strings: Seq<Seq<char>>, text: Seq<char>)
    ensures
        ({
            let (after, name) = with_name(strings, text);
            &&& name < after.len()
            &&& after[name as int] == text
            &&& strings.len() <= after.len()
            &&& forall|i: int| 0 <= i < strings.len() ==> #[trigger] after[i] == strings[i]
        }),
{
    lemma_name_index(strings, text, strings.len());
}

impl DebugTypesSection {
    pub fn new() -> (section: DebugTypesSection)
        ensures
            section@.strings.len() == 0,
            section@.types.len() == 0,
    {
        DebugTypesSection { strings: Vec::new(), types: Vec::new() }
    }

    /// The name at an index.
    pub fn get_string(&self, idx: u32) -> (text: Option<&String>)
        ensures
            match text {
                Some(text) => idx < self@.strings.len() && text@ == self@.strings[idx as int],
                None => idx >= self@.strings.len(),
            },
    {
        if (idx as usize) < self.strings.len() {
            Some(&self.strings[idx as usize])
        } else {
            None
        }
    }

    /// The row at an index.
    pub fn get_type(&self, idx: u32) -> (row: Option<&DebugTypeInfo>)
        ensures
            match row {
                Some(row) => idx < self@.types.len() && row@ == self@.types[idx as int],
                None => idx >= self@.types.len(),
            },
    {
        if (idx as usize) < self.types.len() {
            Some(&self.types[idx as usize])
        } else {
            None
        }
    }

    /// The index of a name, which is added unless it is there.
    pub fn add_string(&mut self, text: String) -> (res: Result<u32, DebugTypeError>)
        ensures
            final(self)@.types == old(self)@.types,
            match res {
                Ok(idx) => {
                    &&& with_name(old(self)@.strings, text@) == (final(self)@.strings, idx as nat)
                    &&& idx < final(self)@.strings.len()
                    &&& final(self)@.strings[idx as int] == text@
                },
                Err(e) => e == DebugTypeError::TableFull && final(self)@ == old(self)@ && old(
                    self,
                )@.strings.len() > u32::MAX,
            },
            grown(old(self)@, final(self)@),
    {
        let ghost names = self@.strings;
        let mut i: usize = 0;
        let mut found: Option<usize> = None;
        while i < self.strings.len() && found.is_none()
            invariant
                i <= self.strings@.len(),
                self == old(self),
                names == self@.strings,
                match found {
                    Some(k) => name_index(names, text@, i as nat) == Some(k as nat),
                    None => name_index(names, text@, i as nat) is None,
                },
            decreases self.strings@.len() - i,
        {
            if self.strings[i] == text {
                found = Some(i);
            }
            i += 1;
        }
        proof {
            if found is Some {
                lemma_name_index_stays(names, text@, i as nat, names.len());
            }
            lemma_name_index(names, text@, names.len());
        }
        match found {
            Some(k) => {
                if k > 4294967295 {
                    return Err(DebugTypeError::TableFull);
                }
                Ok(k as u32)
            },
            None => {
                let n: usize = self.strings.len();
                if n > 4294967295 {
                    return Err(DebugTypeError::TableFull);
                }
                self.strings.push(text);
                assert(self@.strings =~= names.push(text@));
                assert(self@.types =~= old(self)@.types);
                Ok(n as u32)
            },
        }
    }

    /// Appends a row and gives its index.
    pub fn add_type(&mut self, row: DebugTypeInfo) -> (res: Result<u32, DebugTypeError>)
        ensures
            final(self)@.strings == old(self)@.strings,
            match res {
                Ok(idx) => {
                    &&& idx == old(self)@.types.len()
                    &&& final(self)@.types == old(self)@.types.push(row@)
                },
                Err(e) => e == DebugTypeError::TableFull && final(self)@ == old(self)@ && old(
                    self,
                )@.types.len() > u32::MAX,
            },
            grown(old(self)@, final(self)@),
    {
        let n: usize = self.types.len();
        if n > 4294967295 {
            return Err(DebugTypeError::TableFull);
        }
        let ghost rows = self@.types;
        self.types.push(row);
        assert(self@.types =~= rows.push(row@));
        assert(self@.strings =~= old(self)@.strings);
        Ok(n as u32)
    }
}

proof fn lemma_name_index_stays(strings: Seq<Seq<char>>, text: Seq<char>, k: nat, n: nat)
    requires
        k <= n,
        name_index(strings, text, k) is Some,
    ensures
        name_index(strings, text, n) == name_index(strings, text, k),
    decreases n - k,
{
    if k < n {
        lemma_name_index_stays(strings, text, k, (n - 1) as nat);
    }
}

// WHAT ROWS DENOTE
// ================================================================================================

/// The row of a primitive type.
pub open spec fn primitive_row(ty: TypeModel) -> Option<TypeRow> {
    match ty {
        TypeModel::I1 => Some(TypeRow::Primitive(DebugPrimitiveType::Bool)),
        TypeModel::I8 => Some(TypeRow::Primitive(DebugPrimitiveType::I8)),
        TypeModel::U8 => Some(TypeRow::Primitive(DebugPrimitiveType::U8)),
        TypeModel::I16 => Some(TypeRow::Primitive(DebugPrimitiveType::I16)),
        TypeModel::U16 => Some(TypeRow::Primitive(DebugPrimitiveType::U16)),
        TypeModel::I32 => Some(TypeRow::Primitive(DebugPrimitiveType::I32)),
        TypeModel::U32 => Some(TypeRow::Primitive(DebugPrimitiveType::U32)),
        TypeModel::I64 => Some(TypeRow::Primitive(DebugPrimitiveType::I64)),
        TypeModel::U64 => Some(TypeRow::Primitive(DebugPrimitiveType::U64)),
        TypeModel::I128 => Some(TypeRow::Primitive(DebugPrimitiveType::I128)),
        TypeModel::U128 => Some(TypeRow::Primitive(DebugPrimitiveType::U128)),
        TypeModel::Felt => Some(TypeRow::Primitive(DebugPrimitiveType::Felt)),
        TypeModel::F64 => Some(TypeRow::Primitive(DebugPrimitiveType::F64)),
        TypeModel::Never => Some(TypeRow::Primitive(DebugPrimitiveType::Void)),
        TypeModel::U256 | TypeModel::Unknown => Some(TypeRow::Unknown),
        _ => None,
    }
}

/// The expression behind a pointer.
pub open spec fn pointee_decl(decl: Option<ExprModel>) -> Option<ExprModel> {
    match decl {
        Some(ExprModel::Ptr(_, _, pointee)) => Some(*pointee),
        _ => None,
    }
}

/// The name of a type that is referred to.
pub open spec fn ref_name(decl: Option<ExprModel>) -> Option<Seq<char>> {
    match decl {
        Some(ExprModel::Ref(_, path)) => Some(path.text()),
        _ => None,
    }
}

/// The expression for the elements of an array.
pub open spec fn element_decl(decl: Option<ExprModel>) -> Option<ExprModel> {
    match decl {
        Some(ExprModel::Array(_, elem, _)) => Some(*elem),
        _ => None,
    }
}

/// The expression for a field of a structure.
pub open spec fn field_decl(decl: Option<ExprModel>, i: int) -> Option<FieldExpr> {
    match decl {
        Some(ExprModel::Struct(_, _, _, fields)) => if i < fields.len() {
            Some(fields[i])
        } else {
            None
        },
        _ => None,
    }
}

/// The name that an expression gives a type.
pub open spec fn declared_name_of(decl: Option<ExprModel>) -> Option<Seq<char>> {
    match decl {
        Some(ExprModel::Ref(_, path)) => Some(path.text()),
        Some(ExprModel::Struct(_, name, _, _)) => name,
        _ => None,
    }
}

pub open spec fn or_else(name: Option<Seq<char>>, other: Seq<char>) -> Seq<char> {
    match name {
        Some(name) => name,
        None => other,
    }
}

/// A name of the table.
pub open spec fn is_name(section: SectionModel, idx: u32, text: Seq<char>) -> bool {
    idx < section.strings.len() && section.strings[idx as int] == text
}

/// Row `idx` is a structure of a name and a size.
pub open spec fn is_struct_row(
    section: SectionModel,
    idx: u32,
    name: Seq<char>,
    size: u32,
    n: nat,
) -> bool {
    section.types[idx as int] matches TypeRow::Struct(name_idx, row_size, fields) && is_name(
        section,
        name_idx,
        name,
    ) && row_size == size && fields.len() == n
}

/// Row `idx` describes a type, by the names that a declaration gives to its parts, else by those
/// that it has.
pub open spec fn denotes(
    section: SectionModel,
    idx: u32,
    name: Option<Seq<char>>,
    decl: Option<ExprModel>,
    ty: TypeModel,
) -> bool
    decreases ty,
{
    &&& idx < section.types.len()
    &&& match ty {
        TypeModel::Ptr(_, pointee) => section.types[idx as int] matches TypeRow::Pointer(p)
            && denotes(section, p, ref_name(pointee_decl(decl)), pointee_decl(decl), *pointee),
        TypeModel::Array(elem, len) => section.types[idx as int] matches TypeRow::Array(e, count)
            && count == Some(len as u32) && denotes(
            section,
            e,
            ref_name(element_decl(decl)),
            element_decl(decl),
            *elem,
        ),
        TypeModel::List(elem, text) => {
            &&& is_struct_row(section, idx, or_else(name, "list<"@ + text + ">"@), 8, 2)
            &&& section.types[idx as int] matches TypeRow::Struct(_, _, fields) && {
                &&& is_name(section, fields[0].name_idx, "ptr"@)
                &&& fields[0].offset == 0
                &&& fields[0].type_idx < section.types.len()
                &&& section.types[fields[0].type_idx as int] matches TypeRow::Pointer(p)
                    && denotes(section, p, ref_name(pointee_decl(decl)), pointee_decl(decl), *elem)
                &&& is_name(section, fields[1].name_idx, "len"@)
                &&& fields[1].offset == 4
                &&& fields[1].type_idx < section.types.len()
                &&& section.types[fields[1].type_idx as int] == TypeRow::Primitive(
                    DebugPrimitiveType::U32,
                )
            }
        },
        TypeModel::Struct(layout) => {
            &&& is_struct_row(
                section,
                idx,
                or_else(name, or_else(layout.name, "<anon>"@)),
                layout.size,
                layout.fields.len(),
            )
            &&& section.types[idx as int] matches TypeRow::Struct(_, _, fields) && forall|i: int|
                0 <= i < layout.fields.len() ==> {
                    &&& is_name(
                        section,
                        (#[trigger] fields[i]).name_idx,
                        field_name(layout, decl, i),
                    )
                    &&& fields[i].offset == layout.fields[i].offset
                    &&& denotes(
                        section,
                        fields[i].type_idx,
                        declared_name_of(field_type(decl, i)),
                        field_type(decl, i),
                        layout.fields[i].ty,
                    )
                }
        },
        TypeModel::Enum(_, discriminant, is_c_like, _, _) => if is_c_like {
            denotes(section, idx, None, None, *discriminant)
        } else {
            section.types[idx as int] == TypeRow::Unknown
        },
        TypeModel::Function(_, params, results) => section.types[idx as int] matches
            TypeRow::Function(ret, rows) && {
            &&& rows.len() == params.len()
            &&& forall|i: int|
                0 <= i < params.len() ==> denotes(section, #[trigger] rows[i], None, None, params[i])
            &&& ret matches Some(r) && r < section.types.len() && if results.len() == 0 {
                section.types[r as int] == TypeRow::Primitive(DebugPrimitiveType::Void)
            } else if results.len() == 1 {
                denotes(section, r, None, None, results[0])
            } else {
                let layout = laid_out(None, TypeRepr::Default, unnamed(results));
                &&& layout is Some
                &&& is_struct_row(section, r, "<anon>"@, layout->0.size, results.len())
                &&& section.types[r as int] matches TypeRow::Struct(_, _, fields) && forall|i: int|
                    0 <= i < results.len() ==> {
                        &&& is_name(section, (#[trigger] fields[i]).name_idx, decimal(i as nat))
                        &&& fields[i].offset == layout->0.fields[i].offset
                        &&& denotes(section, fields[i].type_idx, None, None, results[i])
                    }
            }
        },
        _ => Some(section.types[idx as int]) == primitive_row(ty),
    }
}

/// The name of a field: as it is declared, else its own, else its number.
pub open spec fn field_name(layout: StructModel, decl: Option<ExprModel>, i: int) -> Seq<char> {
    match field_decl(decl, i) {
        Some(field) => field.name,
        None => or_else(layout.fields[i].name, decimal(i as nat)),
    }
}

pub open spec fn field_type(decl: Option<ExprModel>, i: int) -> Option<ExprModel> {
    match field_decl(decl, i) {
        Some(field) => Some(field.ty),
        None => None,
    }
}

/// Types as fields without names.
pub open spec fn unnamed(types: Seq<TypeModel>) -> Seq<NamedModel> {
    Seq::new(types.len(), |i: int| NamedModel { name: None, ty: types[i] })
}

// WHAT ROWS TELL
// ================================================================================================

/// Types without parts that have a row of their own.
pub open spec fn is_scalar(ty: TypeModel) -> bool {
    ty is Never || ty is F64 || ty is Felt || (ty.is_integer() && !(ty is U256))
}

/// Integers below zero are among the values of a type.
pub open spec fn is_signed(ty: TypeModel) -> bool {
    ty is I8 || ty is I16 || ty is I32 || ty is I64 || ty is I128
}

impl DebugPrimitiveType {
    /// How many bytes a value of a primitive type takes; a field element takes as many as its
    /// machine has for it.
    pub open spec fn size_in_bytes(self) -> Option<nat> {
        match self {
            DebugPrimitiveType::Void => Some(0),
            DebugPrimitiveType::Bool | DebugPrimitiveType::I8 | DebugPrimitiveType::U8 => Some(1),
            DebugPrimitiveType::I16 | DebugPrimitiveType::U16 => Some(2),
            DebugPrimitiveType::I32 | DebugPrimitiveType::U32 => Some(4),
            DebugPrimitiveType::I64 | DebugPrimitiveType::U64 | DebugPrimitiveType::F64 => Some(8),
            DebugPrimitiveType::I128 | DebugPrimitiveType::U128 => Some(16),
            DebugPrimitiveType::Felt => None,
        }
    }

    /// Integers below zero are among the values of a primitive type.
    pub open spec fn is_signed(self) -> bool {
        match self {
            DebugPrimitiveType::I8 | DebugPrimitiveType::I16 | DebugPrimitiveType::I32
            | DebugPrimitiveType::I64 | DebugPrimitiveType::I128 => true,
            _ => false,
        }
    }
}

/// The row of a primitive type has the size and the signedness of the type; a boolean, a float and
/// a field element are told from integers of the same size.
pub proof fn law_primitive_rows_have_size_and_sign(
    section: SectionModel,
    idx: u32,
    name: Option<Seq<char>>,
    decl: Option<ExprModel>,
    ty: TypeModel,
)
    requires
        denotes(section, idx, name, decl, ty),
        is_scalar(ty),
    ensures
        section.types[idx as int] matches TypeRow::Primitive(p) && {
            &&& p.size_in_bytes() == if ty is Felt {
                None
            } else {
                ty.size_in_bytes()
            }
            &&& p.is_signed() == is_signed(ty)
            &&& (p is Bool) == (ty is I1)
            &&& (p is F64) == (ty is F64)
            &&& (p is Felt) == (ty is Felt)
            &&& (p is Void) == (ty is Never)
        },
{
}

/// The row of a primitive type tells it from every other: two primitive types have the same row
/// only if they are the same type, and no type with parts has the row of a primitive one, but for
/// an enumeration without payloads, which has that of its discriminants.
pub proof fn law_primitive_rows_tell_types_apart(
    section: SectionModel,
    i: u32,
    a_name: Option<Seq<char>>,
    a_decl: Option<ExprModel>,
    a: TypeModel,
    j: u32,
    b_name: Option<Seq<char>>,
    b_decl: Option<ExprModel>,
    b: TypeModel,
)
    requires
        denotes(section, i, a_name, a_decl, a),
        denotes(section, j, b_name, b_decl, b),
        is_scalar(a),
        !(b is Enum),
    ensures
        section.types[i as int] == section.types[j as int] <==> a == b,
        i == j ==> a == b,
{
    law_primitive_rows_have_size_and_sign(section, i, a_name, a_decl, a);
    if is_scalar(b) {
        law_primitive_rows_have_size_and_sign(section, j, b_name, b_decl, b);
    }
}

/// What a row denotes stays when rows are appended.
pub proof fn law_denotes_stays(
    before: SectionModel,
    after: SectionModel,
    idx: u32,
    name: Option<Seq<char>>,
    decl: Option<ExprModel>,
    ty: TypeModel,
)
    requires
        grown(before, after),
        denotes(before, idx, name, decl, ty),
    ensures
        denotes(after, idx, name, decl, ty),
    decreases ty,
{
    assert(after.types[idx as int] == before.types[idx as int]);
    match ty {
        TypeModel::Ptr(_, pointee) => {
            law_denotes_stays(
                before,
                after,
                before.types[idx as int]->Pointer_0,
                ref_name(pointee_decl(decl)),
                pointee_decl(decl),
                *pointee,
            );
        },
        TypeModel::Array(elem, _) => {
            law_denotes_stays(
                before,
                after,
                before.types[idx as int]->Array_0,
                ref_name(element_decl(decl)),
                element_decl(decl),
                *elem,
            );
        },
        TypeModel::List(elem, _) => {
            let fields = before.types[idx as int]->Struct_2;
            assert(after.types[fields[0].type_idx as int]
                == before.types[fields[0].type_idx as int]);
            assert(after.types[fields[1].type_idx as int]
                == before.types[fields[1].type_idx as int]);
            law_denotes_stays(
                before,
                after,
                before.types[fields[0].type_idx as int]->Pointer_0,
                ref_name(pointee_decl(decl)),
                pointee_decl(decl),
                *elem,
            );
        },
        TypeModel::Struct(layout) => {
            let fields = before.types[idx as int]->Struct_2;
            assert forall|i: int| 0 <= i < layout.fields.len() implies denotes(
                after,
                (#[trigger] fields[i]).type_idx,
                declared_name_of(field_type(decl, i)),
                field_type(decl, i),
                layout.fields[i].ty,
            ) by {
                law_denotes_stays(
                    before,
                    after,
                    fields[i].type_idx,
                    declared_name_of(field_type(decl, i)),
                    field_type(decl, i),
                    layout.fields[i].ty,
                );
            }
        },
        TypeModel::Enum(_, discriminant, is_c_like, _, _) => {
            if is_c_like {
                law_denotes_stays(before, after, idx, None, None, *discriminant);
            }
        },
        TypeModel::Function(_, params, results) => {
            let rows = before.types[idx as int]->Function_1;
            let ret = before.types[idx as int]->Function_0;
            assert forall|i: int| 0 <= i < params.len() implies denotes(
                after,
                #[trigger] rows[i],
                None,
                None,
                params[i],
            ) by {
                law_denotes_stays(before, after, rows[i], None, None, params[i]);
            }
            let r = ret->0;
            assert(after.types[r as int] == before.types[r as int]);
            if results.len() == 1 {
                law_denotes_stays(before, after, r, None, None, results[0]);
            } else if results.len() > 1 {
                let fields = before.types[r as int]->Struct_2;
                assert forall|i: int| 0 <= i < results.len() implies denotes(
                    after,
                    (#[trigger] fields[i]).type_idx,
                    None,
                    None,
                    results[i],
                ) by {
                    law_denotes_stays(before, after, fields[i].type_idx, None, None, results[i]);
                }
            }
        },
        _ => {},
    }
}

// FAULTS
// ================================================================================================

/// What is wrong with a type, if it cannot be described.
pub open spec fn type_fault(ty: TypeModel) -> Option<DebugTypeError>
    decreases ty, 0nat,
{
    match ty {
        TypeModel::Ptr(_, pointee) => type_fault(*pointee),
        TypeModel::Array(elem, len) => match type_fault(*elem) {
            Some(e) => Some(e),
            None => if len > u32::MAX {
                Some(DebugTypeError::ArrayTooLarge)
            } else {
                None
            },
        },
        TypeModel::List(elem, _) => type_fault(*elem),
        TypeModel::Struct(layout) => field_fault(layout.fields, layout.fields.len()),
        TypeModel::Enum(_, discriminant, _, _, _) => type_fault(*discriminant),
        TypeModel::Function(_, params, results) => if results.len() > 1 && laid_out(
            None,
            TypeRepr::Default,
            unnamed(results),
        ) is None {
            Some(DebugTypeError::ReturnTypeTooBig)
        } else {
            match list_fault(results, results.len()) {
                Some(e) => Some(e),
                None => list_fault(params, params.len()),
            }
        },
        _ => None,
    }
}

pub open spec fn field_fault(fields: Seq<FieldModel>, k: nat) -> Option<DebugTypeError>
    decreases fields, k,
{
    if k == 0 || k > fields.len() {
        None
    } else {
        match field_fault(fields, (k - 1) as nat) {
            Some(e) => Some(e),
            None => type_fault(fields[k - 1].ty),
        }
    }
}

pub open spec fn list_fault(types: Seq<TypeModel>, k: nat) -> Option<DebugTypeError>
    decreases types, k,
{
    if k == 0 || k > types.len() {
        None
    } else {
        match list_fault(types, (k - 1) as nat) {
            Some(e) => Some(e),
            None => type_fault(types[k - 1]),
        }
    }
}

proof fn lemma_field_fault(fields: Seq<FieldModel>, k: nat, n: nat)
    requires
        k <= n <= fields.len(),
        field_fault(fields, k) is Some,
    ensures
        field_fault(fields, n) == field_fault(fields, k),
    decreases n - k,
{
    if k < n {
        lemma_field_fault(fields, k, (n - 1) as nat);
    }
}

proof fn lemma_list_fault(types: Seq<TypeModel>, k: nat, n: nat)
    requires
        k <= n <= types.len(),
        list_fault(types, k) is Some,
    ensures
        list_fault(types, n) == list_fault(types, k),
    decreases n - k,
{
    if k < n {
        lemma_list_fault(types, k, (n - 1) as nat);
    }
}

// ROOM
// ================================================================================================

/// How many rows, and how many names, describe a type at most.
pub open spec fn weight(ty: TypeModel) -> nat
    decreases ty, 0nat,
{
    match ty {
        TypeModel::Ptr(_, pointee) => 1 + weight(*pointee),
        TypeModel::Array(elem, _) => 1 + weight(*elem),
        TypeModel::List(elem, _) => 3 + weight(*elem),
        TypeModel::Struct(layout) => 1 + field_weight(layout.fields, layout.fields.len()),
        TypeModel::Enum(_, discriminant, _, _, _) => 1 + weight(*discriminant),
        TypeModel::Function(_, params, results) => 2 + list_weight(results, results.len())
            + list_weight(params, params.len()),
        _ => 1,
    }
}

/// How many rows and names describe the first `k` fields at most.
pub open spec fn field_weight(fields: Seq<FieldModel>, k: nat) -> nat
    decreases fields, k,
{
    if k == 0 || k > fields.len() {
        0
    } else {
        field_weight(fields, (k - 1) as nat) + 1 + weight(fields[k - 1].ty)
    }
}

/// How many rows and names describe the first `k` types at most.
pub open spec fn list_weight(types: Seq<TypeModel>, k: nat) -> nat
    decreases types, k,
{
    if k == 0 || k > types.len() {
        0
    } else {
        list_weight(types, (k - 1) as nat) + 1 + weight(types[k - 1])
    }
}

proof fn lemma_field_weight(fields: Seq<FieldModel>, k: nat, n: nat)
    requires
        k <= n <= fields.len(),
    ensures
        field_weight(fields, k) <= field_weight(fields, n),
    decreases n - k,
{
    if k < n {
        lemma_field_weight(fields, k, (n - 1) as nat);
    }
}

proof fn lemma_list_weight(types: Seq<TypeModel>, k: nat, n: nat)
    requires
        k <= n <= types.len(),
    ensures
        list_weight(types, k) <= list_weight(types, n),
    decreases n - k,
{
    if k < n {
        lemma_list_weight(types, k, (n - 1) as nat);
    }
}

/// At most `n` rows and `n` names were added.
pub open spec fn grown_by(before: SectionModel, after: SectionModel, n: nat) -> bool {
    &&& after.types.len() <= before.types.len() + n
    &&& after.strings.len() <= before.strings.len() + n
}

/// There may be no room for `n` more rows and names.
pub open spec fn crowded(section: SectionModel, n: nat) -> bool {
    section.types.len() + n > u32::MAX || section.strings.len() + n > u32::MAX
}

// REGISTERING
// ================================================================================================

pub open spec fn decl_model(decl: Option<&TypeExpr>) -> Option<ExprModel> {
    match decl {
        Some(e) => Some(e@),
        None => None,
    }
}

fn pointee_of<'a>(decl: Option<&'a TypeExpr>) -> (pointee: Option<&'a TypeExpr>)
    ensures
        decl_model(pointee) == pointee_decl(decl_model(decl)),
{
    match decl {
        Some(TypeExpr::Ptr(ty)) => Some(&ty.pointee),
        _ => None,
    }
}

fn element_of<'a>(decl: Option<&'a TypeExpr>) -> (elem: Option<&'a TypeExpr>)
    ensures
        decl_model(elem) == element_decl(decl_model(decl)),
{
    match decl {
        Some(TypeExpr::Array(ty)) => Some(&ty.elem),
        _ => None,
    }
}

fn referred_name(decl: Option<&TypeExpr>) -> (name: Option<String>)
    ensures
        name_model(name) == ref_name(decl_model(decl)),
{
    match decl {
        Some(TypeExpr::Ref(_, path)) => Some(path.to_string()),
        _ => None,
    }
}

/// The name that an expression gives a type.
pub fn declared_type_name(decl: Option<&TypeExpr>) -> (name: Option<String>)
    ensures
        name_model(name) == declared_name_of(decl_model(decl)),
{
    match decl {
        Some(TypeExpr::Ref(_, path)) => Some(path.to_string()),
        Some(TypeExpr::Struct(ty)) => copy_name(&ty.name),
        _ => None,
    }
}

fn field_of<'a>(decl: Option<&'a TypeExpr>, i: usize) -> (field: Option<&'a StructField>)
    ensures
        match field {
            Some(field) => field_decl(decl_model(decl), i as int) == Some(field@),
            None => field_decl(decl_model(decl), i as int) is None,
        },
{
    match decl {
        Some(TypeExpr::Struct(ty)) => if i < ty.fields.len() {
            assert(decl_model(decl)->0->Struct_3[i as int] == ty.fields@[i as int]@);
            Some(&ty.fields[i])
        } else {
            None
        },
        _ => None,
    }
}

fn number_text(n: u64) -> (text: String)
    ensures
        text@ == decimal(n as nat),
{
    let mut text = String::new();
    push_decimal(&mut text, n);
    assert(text@ =~= decimal(n as nat));
    text
}

/// Fields that describe the first fields of a structure.
pub open spec fn fields_denote(
    section: SectionModel,
    rows: Seq<DebugFieldInfo>,
    layout: StructModel,
    decl: Option<ExprModel>,
    k: int,
) -> bool {
    &&& rows.len() == k
    &&& forall|i: int|
        0 <= i < k ==> {
            &&& is_name(section, (#[trigger] rows[i]).name_idx, field_name(layout, decl, i))
            &&& rows[i].offset == layout.fields[i].offset
            &&& denotes(
                section,
                rows[i].type_idx,
                declared_name_of(field_type(decl, i)),
                field_type(decl, i),
                layout.fields[i].ty,
            )
        }
}

proof fn lemma_fields_denote_stay(
    before: SectionModel,
    after: SectionModel,
    rows: Seq<DebugFieldInfo>,
    layout: StructModel,
    decl: Option<ExprModel>,
    k: int,
)
    requires
        grown(before, after),
        fields_denote(before, rows, layout, decl, k),
    ensures
        fields_denote(after, rows, layout, decl, k),
{
    assert forall|i: int| 0 <= i < k implies {
        &&& is_name(after, (#[trigger] rows[i]).name_idx, field_name(layout, decl, i))
        &&& denotes(
            after,
            rows[i].type_idx,
            declared_name_of(field_type(decl, i)),
            field_type(decl, i),
            layout.fields[i].ty,
        )
    } by {
        law_denotes_stays(
            before,
            after,
            rows[i].type_idx,
            declared_name_of(field_type(decl, i)),
            field_type(decl, i),
            layout.fields[i].ty,
        );
    }
}

/// Rows that describe the first types of a list.
pub open spec fn rows_denote(
    section: SectionModel,
    rows: Seq<u32>,
    types: Seq<TypeModel>,
    k: int,
) -> bool {
    &&& rows.len() == k
    &&& forall|i: int|
        0 <= i < k ==> denotes(section, #[trigger] rows[i], None, None, types[i])
}

proof fn lemma_rows_denote_stay(
    before: SectionModel,
    after: SectionModel,
    rows: Seq<u32>,
    types: Seq<TypeModel>,
    k: int,
)
    requires
        grown(before, after),
        rows_denote(before, rows, types, k),
    ensures
        rows_denote(after, rows, types, k),
{
    assert forall|i: int| 0 <= i < k implies denotes(
        after,
        #[trigger] rows[i],
        None,
        None,
        types[i],
    ) by {
        law_denotes_stays(before, after, rows[i], None, None, types[i]);
    }
}

/// Fields without names that describe the first types of a list.
pub open spec fn results_denote(
    section: SectionModel,
    rows: Seq<DebugFieldInfo>,
    layout: StructModel,
    types: Seq<TypeModel>,
    k: int,
) -> bool {
    &&& rows.len() == k
    &&& forall|i: int|
        0 <= i < k ==> {
            &&& is_name(section, (#[trigger] rows[i]).name_idx, decimal(i as nat))
            &&& rows[i].offset == layout.fields[i].offset
            &&& denotes(section, rows[i].type_idx, None, None, types[i])
        }
}

proof fn lemma_results_denote_stay(
    before: SectionModel,
    after: SectionModel,
    rows: Seq<DebugFieldInfo>,
    layout: StructModel,
    types: Seq<TypeModel>,
    k: int,
)
    requires
        grown(before, after),
        results_denote(before, rows, layout, types, k),
    ensures
        results_denote(after, rows, layout, types, k),
{
    assert forall|i: int| 0 <= i < k implies is_name(
        after,
        (#[trigger] rows[i]).name_idx,
        decimal(i as nat),
    ) && denotes(after, rows[i].type_idx, None, None, types[i]) by {
        law_denotes_stays(before, after, rows[i].type_idx, None, None, types[i]);
    }
}

/// A type was registered, or refused for the first thing that is wrong with it, or for want of room.
pub open spec fn registered(
    before: SectionModel,
    after: SectionModel,
    name: Option<Seq<char>>,
    decl: Option<ExprModel>,
    ty: TypeModel,
    res: Result<u32, DebugTypeError>,
) -> bool {
    &&& grown(before, after)
    &&& grown_by(before, after, weight(ty))
    &&& match res {
        Ok(idx) => type_fault(ty) is None && denotes(after, idx, name, decl, ty),
        Err(DebugTypeError::TableFull) => crowded(before, weight(ty)),
        Err(e) => type_fault(ty) == Some(e),
    }
}

impl DebugTypesSection {
    /// Adds rows for a type and gives the index of its row. The names that a declaration gives to
    /// the type and its parts are preferred to those that they have.
    ///
    /// Refuses arrays with more elements, and results with more bytes, than a row can say.
    pub fn register_debug_type(
        &mut self,
        declared_name: Option<String>,
        declared_ty: Option<&TypeExpr>,
        ty: &Type,
    ) -> (res: Result<u32, DebugTypeError>)
        ensures
            registered(
                old(self)@,
                final(self)@,
                name_model(declared_name),
                decl_model(declared_ty),
                ty@,
                res,
            ),
        decreases ty, 1nat,
    {
        match ty {
            Type::I1 => self.add_type(DebugTypeInfo::Primitive(DebugPrimitiveType::Bool)),
            Type::I8 => self.add_type(DebugTypeInfo::Primitive(DebugPrimitiveType::I8)),
            Type::U8 => self.add_type(DebugTypeInfo::Primitive(DebugPrimitiveType::U8)),
            Type::I16 => self.add_type(DebugTypeInfo::Primitive(DebugPrimitiveType::I16)),
            Type::U16 => self.add_type(DebugTypeInfo::Primitive(DebugPrimitiveType::U16)),
            Type::I32 => self.add_type(DebugTypeInfo::Primitive(DebugPrimitiveType::I32)),
            Type::U32 => self.add_type(DebugTypeInfo::Primitive(DebugPrimitiveType::U32)),
            Type::I64 => self.add_type(DebugTypeInfo::Primitive(DebugPrimitiveType::I64)),
            Type::U64 => self.add_type(DebugTypeInfo::Primitive(DebugPrimitiveType::U64)),
            Type::I128 => self.add_type(DebugTypeInfo::Primitive(DebugPrimitiveType::I128)),
            Type::U128 => self.add_type(DebugTypeInfo::Primitive(DebugPrimitiveType::U128)),
            Type::Felt => self.add_type(DebugTypeInfo::Primitive(DebugPrimitiveType::Felt)),
            Type::F64 => self.add_type(DebugTypeInfo::Primitive(DebugPrimitiveType::F64)),
            Type::Never => self.add_type(DebugTypeInfo::Primitive(DebugPrimitiveType::Void)),
            Type::U256 | Type::Unknown => self.add_type(DebugTypeInfo::Unknown),
            Type::Ptr { addrspace: _, pointee } => {
                let inner = pointee_of(declared_ty);
                match self.register_debug_type(referred_name(inner), inner, pointee) {
                    Ok(pointee_type_idx) => {
                        let ghost before = self@;
                        let res = self.add_type(DebugTypeInfo::Pointer { pointee_type_idx });
                        proof {
                            law_denotes_stays(
                                before,
                                self@,
                                pointee_type_idx,
                                ref_name(decl_model(inner)),
                                decl_model(inner),
                                pointee@,
                            );
                        }
                        res
                    },
                    Err(e) => Err(e),
                }
            },
            Type::Array { elem, len } => {
                let inner = element_of(declared_ty);
                match self.register_debug_type(referred_name(inner), inner, elem) {
                    Ok(element_type_idx) => {
                        let ghost before = self@;
                        if *len > 4294967295 {
                            return Err(DebugTypeError::ArrayTooLarge);
                        }
                        let count = Some(*len as u32);
                        let res = self.add_type(DebugTypeInfo::Array { element_type_idx, count });
                        proof {
                            law_denotes_stays(
                                before,
                                self@,
                                element_type_idx,
                                ref_name(decl_model(inner)),
                                decl_model(inner),
                                elem@,
                            );
                        }
                        res
                    },
                    Err(e) => Err(e),
                }
            },
            Type::List { elem, elem_text } => {
                let inner = pointee_of(declared_ty);
                match self.register_debug_type(referred_name(inner), inner, elem) {
                    Ok(idx) => self.add_list(declared_name, inner, elem, elem_text, idx),
                    Err(e) => Err(e),
                }
            },
            Type::Struct(layout) => self.register_struct(declared_name, declared_ty, layout),
            Type::Enum(layout) => {
                match self.register_debug_type(None, None, &layout.discriminant) {
                    Ok(idx) => if layout.is_c_like {
                        Ok(idx)
                    } else {
                        self.add_type(DebugTypeInfo::Unknown)
                    },
                    Err(e) => Err(e),
                }
            },
            Type::Function(signature) => {
                let res = self.register_function(signature);
                proof {
                    crate::types::lemma_function_view(**signature);
                }
                res
            },
        }
    }

    /// Adds the row of a list, whose elements' row is `idx`: a pointer and a length.
    fn add_list(
        &mut self,
        declared_name: Option<String>,
        decl: Option<&TypeExpr>,
        elem: &Type,
        elem_text: &String,
        idx: u32,
    ) -> (res: Result<u32, DebugTypeError>)
        requires
            denotes(old(self)@, idx, ref_name(decl_model(decl)), decl_model(decl), elem@),
        ensures
            grown(old(self)@, final(self)@),
            grown_by(old(self)@, final(self)@, 3),
            match res {
                Ok(list) => forall|outer: Option<ExprModel>|
                    #[trigger] pointee_decl(outer) == decl_model(decl) ==> denotes(
                        final(self)@,
                        list,
                        name_model(declared_name),
                        outer,
                        TypeModel::List(Box::new(elem@), elem_text@),
                    ),
                Err(e) => e == DebugTypeError::TableFull && crowded(old(self)@, 3),
            },
    {
        let ghost start = self@;
        let ghost name = name_model(declared_name);
        let usize_ty: u32 = match self.add_type(
            DebugTypeInfo::Primitive(DebugPrimitiveType::U32),
        ) {
            Ok(idx) => idx,
            Err(e) => {
                return Err(e);
            },
        };
        let pointer_ty: u32 = match self.add_type(
            DebugTypeInfo::Pointer { pointee_type_idx: idx },
        ) {
            Ok(idx) => idx,
            Err(e) => {
                return Err(e);
            },
        };
        let text = match declared_name {
            Some(name) => name,
            None => {
                let mut text = String::from_str("list<");
                text.append(elem_text.as_str());
                text.append(">");
                text
            },
        };
        assert(text@ =~= or_else(name, "list<"@ + elem_text@ + ">"@));
        let name_idx: u32 = match self.add_string(text) {
            Ok(idx) => idx,
            Err(e) => {
                return Err(e);
            },
        };
        let ptr_idx: u32 = match self.add_string(String::from_str("ptr")) {
            Ok(idx) => idx,
            Err(e) => {
                return Err(e);
            },
        };
        let len_idx: u32 = match self.add_string(String::from_str("len")) {
            Ok(idx) => idx,
            Err(e) => {
                return Err(e);
            },
        };
        let mut fields: Vec<DebugFieldInfo> = Vec::new();
        fields.push(DebugFieldInfo { name_idx: ptr_idx, type_idx: pointer_ty, offset: 0 });
        fields.push(DebugFieldInfo { name_idx: len_idx, type_idx: usize_ty, offset: 4 });
        let res = self.add_type(DebugTypeInfo::Struct { name_idx, size: 8, fields });
        proof {
            law_denotes_stays(
                start,
                self@,
                idx,
                ref_name(decl_model(decl)),
                decl_model(decl),
                elem@,
            );
            if let Ok(list) = res {
                assert(self@.types[list as int] == TypeRow::Struct(name_idx, 8, fields@));
                assert(self@.types[pointer_ty as int] == TypeRow::Pointer(idx));
                assert(self@.types[usize_ty as int] == TypeRow::Primitive(
                    DebugPrimitiveType::U32,
                ));
            }
        }
        res
    }

    fn register_struct(
        &mut self,
        declared_name: Option<String>,
        declared_ty: Option<&TypeExpr>,
        layout: &StructLayout,
    ) -> (res: Result<u32, DebugTypeError>)
        ensures
            registered(
                old(self)@,
                final(self)@,
                name_model(declared_name),
                decl_model(declared_ty),
                TypeModel::Struct(layout@),
                res,
            ),
        decreases layout, 0nat,
    {
        let ghost start = self@;
        let ghost decl = decl_model(declared_ty);
        let ghost name = name_model(declared_name);
        let mut fields: Vec<DebugFieldInfo> = Vec::new();
        let mut i: usize = 0;
        while i < layout.fields.len()
            invariant
                i <= layout.fields@.len() == layout@.fields.len(),
                start == old(self)@,
                decl == decl_model(declared_ty),
                grown(start, self@),
                grown_by(start, self@, field_weight(layout@.fields, i as nat)),
                fields_denote(self@, fields@, layout@, decl, i as int),
                field_fault(layout@.fields, i as nat) is None,
            decreases layout.fields@.len() - i,
        {
            let field = &layout.fields[i];
            assert(decreases_to!(*layout => layout.fields));
            assert(layout@.fields[i as int] == field@);
            proof {
                lemma_field_weight(layout@.fields, (i + 1) as nat, layout@.fields.len());
            }
            let declared = field_of(declared_ty, i);
            let field_name_text = match declared {
                Some(declared) => declared.name.clone(),
                None => match &field.name {
                    Some(name) => name.clone(),
                    None => number_text(i as u64),
                },
            };
            assert(field_name_text@ == field_name(layout@, decl, i as int));
            let inner = match declared {
                Some(declared) => Some(&declared.ty),
                None => None,
            };
            assert(decl_model(inner) == field_type(decl, i as int));
            let ghost before = self@;
            let type_idx: u32 = match self.register_debug_type(
                declared_type_name(inner),
                inner,
                &field.ty,
            ) {
                Ok(idx) => idx,
                Err(e) => {
                    proof {
                        if e != DebugTypeError::TableFull {
                            lemma_field_fault(layout@.fields, (i + 1) as nat, layout@.fields.len());
                        }
                    }
                    return Err(e);
                },
            };
            let ghost between = self@;
            let name_idx: u32 = match self.add_string(field_name_text) {
                Ok(idx) => idx,
                Err(e) => {
                    return Err(e);
                },
            };
            let ghost rows = fields@;
            fields.push(DebugFieldInfo { name_idx, type_idx, offset: field.offset });
            proof {
                lemma_fields_denote_stay(before, self@, rows, layout@, decl, i as int);
                law_denotes_stays(
                    between,
                    self@,
                    type_idx,
                    declared_name_of(decl_model(inner)),
                    decl_model(inner),
                    field.ty@,
                );
            }
            i += 1;
        }
        let text = match declared_name {
            Some(name) => name,
            None => match &layout.name {
                Some(name) => name.clone(),
                None => String::from_str("<anon>"),
            },
        };
        assert(text@ == or_else(name, or_else(layout@.name, "<anon>"@)));
        let ghost before = self@;
        let name_idx: u32 = match self.add_string(text) {
            Ok(idx) => idx,
            Err(e) => {
                return Err(e);
            },
        };
        let ghost rows = fields@;
        let res = self.add_type(DebugTypeInfo::Struct { name_idx, size: layout.size, fields });
        proof {
            lemma_fields_denote_stay(before, self@, rows, layout@, decl, i as int);
            if let Ok(idx) = res {
                assert(self@.types[idx as int] == TypeRow::Struct(name_idx, layout.size, rows));
            }
        }
        res
    }

    /// Adds rows for types, in order.
    fn register_types(&mut self, types: &Vec<Type>) -> (res: Result<Vec<u32>, DebugTypeError>)
        ensures
            grown(old(self)@, final(self)@),
            ({
                let models = crate::types::type_models(types@);
                &&& grown_by(old(self)@, final(self)@, list_weight(models, models.len()))
                &&& match res {
                    Ok(rows) => list_fault(models, models.len()) is None && rows_denote(
                        final(self)@,
                        rows@,
                        models,
                        types@.len() as int,
                    ),
                    Err(DebugTypeError::TableFull) => crowded(
                        old(self)@,
                        list_weight(models, models.len()),
                    ),
                    Err(e) => list_fault(models, models.len()) == Some(e),
                }
            }),
        decreases types, 2nat,
    {
        let ghost models = crate::types::type_models(types@);
        let mut rows: Vec<u32> = Vec::new();
        let mut i: usize = 0;
        while i < types.len()
            invariant
                i <= types@.len(),
                models == crate::types::type_models(types@),
                grown(old(self)@, self@),
                grown_by(old(self)@, self@, list_weight(models, i as nat)),
                rows_denote(self@, rows@, models, i as int),
                list_fault(models, i as nat) is None,
            decreases types@.len() - i,
        {
            assert(models[i as int] == types@[i as int]@);
            let ghost before = self@;
            let ghost list = rows@;
            proof {
                lemma_list_weight(models, (i + 1) as nat, models.len());
            }
            match self.register_debug_type(None, None, &types[i]) {
                Ok(idx) => {
                    rows.push(idx);
                    proof {
                        lemma_rows_denote_stay(before, self@, list, models, i as int);
                    }
                },
                Err(e) => {
                    proof {
                        if e != DebugTypeError::TableFull {
                            lemma_list_fault(models, (i + 1) as nat, models.len());
                        }
                    }
                    return Err(e);
                },
            }
            i += 1;
        }
        Ok(rows)
    }

    /// Adds rows for the results of a procedure, which are a structure if there are several.
    fn register_results(&mut self, types: &Vec<Type>) -> (res: Result<u32, DebugTypeError>)
        ensures
            grown(old(self)@, final(self)@),
            ({
                let results = crate::types::type_models(types@);
                let layout = laid_out(None, TypeRepr::Default, unnamed(results));
                let too_big = results.len() > 1 && layout is None;
                let room = 1 + list_weight(results, results.len());
                &&& grown_by(old(self)@, final(self)@, room)
                &&& match res {
                    Ok(r) => !too_big && list_fault(results, results.len()) is None && describes_results(
                        final(self)@,
                        r,
                        results,
                    ),
                    Err(DebugTypeError::TableFull) => crowded(old(self)@, room),
                    Err(e) => Some(e) == if too_big {
                        Some(DebugTypeError::ReturnTypeTooBig)
                    } else {
                        list_fault(results, results.len())
                    },
                }
            }),
        decreases types, 2nat,
    {
        let ghost results = crate::types::type_models(types@);
        if types.len() == 0 {
            return self.add_type(DebugTypeInfo::Primitive(DebugPrimitiveType::Void));
        }
        if types.len() == 1 {
            assert(results[0] == types@[0]@);
            assert(list_fault(results, 0) is None);
            assert(list_fault(results, 1) == type_fault(results[0]));
            assert(list_weight(results, 0) == 0);
            assert(list_weight(results, 1) == 1 + weight(results[0]));
            return self.register_debug_type(None, None, &types[0]);
        }
        let layout = match layout_of_results(types) {
            Some(layout) => layout,
            None => {
                return Err(DebugTypeError::ReturnTypeTooBig);
            },
        };
        let ghost model = layout@;
        proof {
            assert(layout@.fields.len() == results.len()) by {
                crate::types::law_fields_in_order(
                    None,
                    TypeRepr::Default,
                    unnamed(results),
                    0,
                );
            }
        }
        let mut fields: Vec<DebugFieldInfo> = Vec::new();
        let mut i: usize = 0;
        while i < types.len()
            invariant
                i <= types@.len(),
                types@.len() == results.len() == layout.fields@.len(),
                model == layout@,
                results == crate::types::type_models(types@),
                laid_out(None, TypeRepr::Default, unnamed(results)) == Some(model),
                results.len() > 1,
                grown(old(self)@, self@),
                grown_by(old(self)@, self@, list_weight(results, i as nat)),
                results_denote(self@, fields@, model, results, i as int),
                list_fault(results, i as nat) is None,
            decreases types@.len() - i,
        {
            let ghost start = self@;
            let ghost rows = fields@;
            assert(results[i as int] == types@[i as int]@);
            assert(model.fields[i as int] == layout.fields@[i as int]@);
            proof {
                lemma_list_weight(results, (i + 1) as nat, results.len());
            }
            let name_idx: u32 = match self.add_string(number_text(i as u64)) {
                Ok(idx) => idx,
                Err(e) => {
                    return Err(e);
                },
            };
            let type_idx: u32 = match self.register_debug_type(None, None, &types[i]) {
                Ok(idx) => idx,
                Err(e) => {
                    proof {
                        if e != DebugTypeError::TableFull {
                            lemma_list_fault(results, (i + 1) as nat, results.len());
                        }
                    }
                    return Err(e);
                },
            };
            fields.push(DebugFieldInfo { name_idx, type_idx, offset: layout.fields[i].offset });
            proof {
                lemma_results_denote_stay(start, self@, rows, model, results, i as int);
            }
            i += 1;
        }
        let ghost before = self@;
        let name_idx: u32 = match self.add_string(String::from_str("<anon>")) {
            Ok(idx) => idx,
            Err(e) => {
                return Err(e);
            },
        };
        let ghost rows = fields@;
        let res = self.add_type(DebugTypeInfo::Struct { name_idx, size: layout.size, fields });
        proof {
            lemma_results_denote_stay(before, self@, rows, model, results, i as int);
            if let Ok(r) = res {
                assert(self@.types[r as int] == TypeRow::Struct(name_idx, layout.size, rows));
            }
        }
        res
    }

    fn register_function(&mut self, signature: &Signature) -> (res: Result<u32, DebugTypeError>)
        ensures
            forall|name: Option<Seq<char>>, decl: Option<ExprModel>| #[trigger]
                registered(old(self)@, final(self)@, name, decl, signature@, res),
        decreases signature, 0nat,
    {
        let ghost results = crate::types::type_models(signature.results@);
        let ghost params = crate::types::type_models(signature.params@);
        assert(decreases_to!(*signature => signature.results));
        assert(decreases_to!(*signature => signature.params));
        let r: u32 = match self.register_results(&signature.results) {
            Ok(r) => r,
            Err(e) => {
                return Err(e);
            },
        };
        let ghost between = self@;
        let rows = match self.register_types(&signature.params) {
            Ok(rows) => rows,
            Err(e) => {
                return Err(e);
            },
        };
        let ghost list = rows@;
        let ghost before = self@;
        let res = self.add_type(
            DebugTypeInfo::Function { return_type_idx: Some(r), param_type_indices: rows },
        );
        proof {
            lemma_rows_denote_stay(before, self@, list, params, params.len() as int);
            lemma_results_row_stays(between, self@, r, results);
            if let Ok(idx) = res {
                assert(self@.types[idx as int] == TypeRow::Function(Some(r), list));
            }
        }
        res
    }
}

/// Row `r` describes the results of a procedure.
pub open spec fn describes_results(section: SectionModel, r: u32, results: Seq<TypeModel>) -> bool {
    r < section.types.len() && if results.len() == 0 {
        section.types[r as int] == TypeRow::Primitive(DebugPrimitiveType::Void)
    } else if results.len() == 1 {
        denotes(section, r, None, None, results[0])
    } else {
        let layout = laid_out(None, TypeRepr::Default, unnamed(results));
        &&& layout is Some
        &&& is_struct_row(section, r, "<anon>"@, layout->0.size, results.len())
        &&& section.types[r as int] matches TypeRow::Struct(_, _, fields) && results_denote(
            section,
            fields,
            layout->0,
            results,
            results.len() as int,
        )
    }
}

proof fn lemma_results_row_stays(
    before: SectionModel,
    after: SectionModel,
    r: u32,
    results: Seq<TypeModel>,
)
    requires
        grown(before, after),
        describes_results(before, r, results),
    ensures
        describes_results(after, r, results),
{
    assert(after.types[r as int] == before.types[r as int]);
    if results.len() == 1 {
        law_denotes_stays(before, after, r, None, None, results[0]);
    } else if results.len() > 1 {
        let fields = before.types[r as int]->Struct_2;
        lemma_results_denote_stay(
            before,
            after,
            fields,
            laid_out(None, TypeRepr::Default, unnamed(results))->0,
            results,
            results.len() as int,
        );
    }
}

/// The layout of several results.
fn layout_of_results(types: &Vec<Type>) -> (layout: Option<StructLayout>)
    ensures
        match layout {
            Some(layout) => laid_out(
                None,
                TypeRepr::Default,
                unnamed(crate::types::type_models(types@)),
            ) == Some(layout@),
            None => laid_out(
                None,
                TypeRepr::Default,
                unnamed(crate::types::type_models(types@)),
            ) is None,
        },
{
    let mut fields: Vec<NamedType> = Vec::new();
    let mut i: usize = 0;
    while i < types.len()
        invariant
            i <= types@.len(),
            fields@.len() == i,
            forall|k: int|
                0 <= k < i ==> (#[trigger] fields@[k])@ == (NamedModel {
                    name: None,
                    ty: types@[k]@,
                }),
        decreases types@.len() - i,
    {
        fields.push(NamedType { name: None, ty: types[i].copy() });
        i += 1;
    }
    assert(named_models(fields@) =~= unnamed(crate::types::type_models(types@)));
    StructLayout::from_parts(None, TypeRepr::Default, fields)
}

/// The row of a type with parts tells its shape: a structure has the size of the type and a field
/// for each of its fields, at the same offset; an array has as many elements; a list is a pointer
/// and then a length, which fill it; a function has a row for each parameter.
pub proof fn law_rows_tell_the_shape(
    section: SectionModel,
    idx: u32,
    name: Option<Seq<char>>,
    decl: Option<ExprModel>,
    ty: TypeModel,
)
    requires
        denotes(section, idx, name, decl, ty),
    ensures
        ty matches TypeModel::Struct(layout) ==> (section.types[idx as int] matches TypeRow::Struct(
            _,
            size,
            fields,
        ) && ty.size_in_bytes() == Some(size as nat) && fields.len() == layout.fields.len()
            && forall|i: int|
            0 <= i < fields.len() ==> (#[trigger] fields[i]).offset == layout.fields[i].offset
                && fields[i].type_idx < section.types.len()),
        ty matches TypeModel::Array(_, len) ==> (section.types[idx as int] matches TypeRow::Array(
            elem,
            count,
        ) && count == Some(len as u32) && elem < section.types.len()),
        ty matches TypeModel::Ptr(_, _) ==> (section.types[idx as int] matches TypeRow::Pointer(p)
            && p < section.types.len()),
        ty matches TypeModel::List(_, _) ==> (section.types[idx as int] matches TypeRow::Struct(
            _,
            size,
            fields,
        ) && fields.len() == 2 && fields[0].offset == 0
            && section.types[fields[0].type_idx as int] is Pointer
            && fields[1].offset == size - fields[1].offset && (
        section.types[fields[1].type_idx as int] matches TypeRow::Primitive(p) && !p.is_signed()
            && p.size_in_bytes() == Some((size - fields[1].offset) as nat))),
        ty matches TypeModel::Function(_, params, results) ==> (section.types[idx as int] matches
            TypeRow::Function(ret, rows) && rows.len() == params.len() && ret is Some && (
        results.len() == 0 ==> section.types[ret->0 as int] == TypeRow::Primitive(
            DebugPrimitiveType::Void,
        ))),
{
    match ty {
        TypeModel::Struct(layout) => {
            assert((layout.size * 8 + 7) / 8 == layout.size);
            let fields = section.types[idx as int]->Struct_2;
            assert forall|i: int| 0 <= i < fields.len() implies (#[trigger] fields[i]).offset
                == layout.fields[i].offset && fields[i].type_idx < section.types.len() by {
                lemma_denotes_row(
                    section,
                    fields[i].type_idx,
                    declared_name_of(field_type(decl, i)),
                    field_type(decl, i),
                    layout.fields[i].ty,
                );
            }
        },
        TypeModel::Array(elem, _) => {
            let e = section.types[idx as int]->Array_0;
            let part = element_decl(decl);
            lemma_denotes_row(section, e, ref_name(part), part, *elem);
        },
        TypeModel::Ptr(_, pointee) => {
            let p = section.types[idx as int]->Pointer_0;
            let part = pointee_decl(decl);
            lemma_denotes_row(section, p, ref_name(part), part, *pointee);
        },
        _ => {},
    }
}

/// A row that describes a type is there.
proof fn lemma_denotes_row(
    section: SectionModel,
    idx: u32,
    name: Option<Seq<char>>,
    decl: Option<ExprModel>,
    ty: TypeModel,
)
    requires
        denotes(section, idx, name, decl, ty),
    ensures
        idx < section.types.len(),
{
}

/// An array can be described if and only if its elements can and their number fits in four bytes.
pub proof fn law_arrays_are_described_if_they_can_be_counted(elem: TypeModel, len: usize)
    ensures
        type_fault(TypeModel::Array(Box::new(elem), len)) is None <==> type_fault(elem) is None
            && len < 0x1_0000_0000,
{
}

/// The fields of a structure are described under their names: the one that a declaration gives, else
/// the one of the field itself, else the number of the field.
pub proof fn law_fields_are_described_by_name(
    section: SectionModel,
    idx: u32,
    name: Option<Seq<char>>,
    decl: Option<ExprModel>,
    layout: StructModel,
    i: int,
)
    requires
        denotes(section, idx, name, decl, TypeModel::Struct(layout)),
        0 <= i < layout.fields.len(),
    ensures
        section.types[idx as int] matches TypeRow::Struct(name_idx, _, fields) && {
            let text = section.strings[fields[i].name_idx as int];
            let declared = match decl {
                Some(ExprModel::Struct(_, _, _, list)) => if i < list.len() {
                    Some(list[i].name)
                } else {
                    None
                },
                _ => None,
            };
            &&& fields[i].name_idx < section.strings.len()
            &&& declared is Some ==> Some(text) == declared
            &&& declared is None && layout.fields[i].name is Some ==> Some(text)
                == layout.fields[i].name
            &&& declared is None && layout.fields[i].name is None ==> crate::text::number(text, 10)
                == i
            &&& name is Some ==> Some(section.strings[name_idx as int]) == name
            &&& name is None && layout.name is Some ==> Some(section.strings[name_idx as int])
                == layout.name
        },
{
    crate::text::law_decimal_reads_back(i as nat);
    let fields = section.types[idx as int]->Struct_2;
    assert(is_name(section, fields[i].name_idx, field_name(layout, decl, i)));
}

/// Only types that cannot be described have a row that says nothing: a wide integer, a type that is
/// not known, and an enumeration with payloads. One without payloads has the row of its
/// discriminants. Several results of a function are described as a structure with a field for each.
pub proof fn law_rows_say_what_can_be_said(
    section: SectionModel,
    idx: u32,
    name: Option<Seq<char>>,
    decl: Option<ExprModel>,
    ty: TypeModel,
)
    requires
        denotes(section, idx, name, decl, ty),
    ensures
        !(ty is Enum) ==> (section.types[idx as int] == TypeRow::Unknown <==> ty is U256
            || ty is Unknown),
        ty matches TypeModel::Enum(_, _, false, _, _) ==> section.types[idx as int]
            == TypeRow::Unknown,
        ty matches TypeModel::Enum(_, discriminant, true, _, _) ==> is_scalar(*discriminant) ==> (
        section.types[idx as int] matches TypeRow::Primitive(p) && (!(*discriminant is Felt)
            ==> p.size_in_bytes() == discriminant.size_in_bytes()) && p.is_signed() == is_signed(
            *discriminant,
        )),
        ty matches TypeModel::Function(_, _, results) ==> results.len() > 1 ==> (
        section.types[idx as int] matches TypeRow::Function(Some(r), _) && section.types[r as int]
            matches TypeRow::Struct(_, _, fields) && fields.len() == results.len()),
{
    match ty {
        TypeModel::Enum(_, discriminant, true, _, _) => {
            if is_scalar(*discriminant) {
                law_primitive_rows_have_size_and_sign(section, idx, None, None, *discriminant);
            }
        },
        _ => {
            if is_scalar(ty) {
                law_primitive_rows_have_size_and_sign(section, idx, name, decl, ty);
            }
        },
    }
}

/// A name is kept once: adding one that is there gives its place and changes nothing, and adding
/// another keeps all places.
pub proof fn law_names_are_kept_once(strings: Seq<Seq<char>>, text: Seq<char>)
    requires
        strings.no_duplicates(),
    ensures
        ({
            let (after, name) = with_name(strings, text);
            &&& after.no_duplicates()
            &&& name < after.len()
            &&& after[name as int] == text
            &&& strings.contains(text) ==> after == strings
            &&& !strings.contains(text) ==> after == strings.push(text)
        }),
{
    lemma_with_name(strings, text);
    lemma_name_index(strings, text, strings.len());
    let (after, name) = with_name(strings, text);
    if strings.contains(text) {
        lemma_known_name(strings, text);
    }
}

} // verus!
