//! Types of values, with the layout of structures in memory.

use vstd::prelude::*;
use vstd::string::*;

verus! {

/// The address space that a pointer points into.
#[derive(Clone, Copy, PartialEq, Eq, Structural, Debug)]
pub enum AddressSpace {
    Byte,
    Element,
}

/// How a structure is represented in memory.
#[derive(Clone, Copy, PartialEq, Eq, Structural, Debug)]
pub enum TypeRepr {
    /// As in C.
    Default,
    /// As in C, with at least this alignment.
    Align(u16),
    /// As in C, with fields of at most this alignment.
    Packed(u16),
    /// Like its only field that is not empty.
    Transparent,
    /// As in C, with the highest addressed element on top of the stack.
    BigEndian,
}

#[derive(Clone, Copy, PartialEq, Eq, Structural, Debug)]
pub enum CallConv {
    Fast,
    C,
    Wasm,
    ComponentModel,
}

/// The type of a value.
#[derive(PartialEq, Eq, Debug)]
pub enum Type {
    Unknown,
    Never,
    I1,
    I8,
    U8,
    I16,
    U16,
    I32,
    U32,
    I64,
    U64,
    I128,
    U128,
    U256,
    F64,
    Felt,
    Ptr { addrspace: AddressSpace, pointee: Box<Type> },
    Struct(Box<StructLayout>),
    Enum(Box<EnumLayout>),
    Array { elem: Box<Type>, len: usize },
    /// A list, with the text that its elements' type is written as.
    List { elem: Box<Type>, elem_text: String },
    Function(Box<Signature>),
}

/// A field of a structure and its place in memory.
#[derive(PartialEq, Eq, Debug)]
pub struct FieldLayout {
    pub name: Option<String>,
    pub align: u16,
    pub offset: u32,
    pub ty: Type,
}

/// A structure and its size in memory.
#[derive(PartialEq, Eq, Debug)]
pub struct StructLayout {
    pub name: Option<String>,
    pub repr: TypeRepr,
    pub size: u32,
    pub fields: Vec<FieldLayout>,
}

/// An enumeration and its size in memory. It is C-like if its variants hold no values.
#[derive(PartialEq, Eq, Debug)]
pub struct EnumLayout {
    pub name: String,
    pub discriminant: Type,
    pub is_c_like: bool,
    pub size: u32,
    pub align: u32,
}

/// What a procedure takes and returns.
#[derive(PartialEq, Eq, Debug)]
pub struct Signature {
    pub cc: CallConv,
    pub params: Vec<Type>,
    pub results: Vec<Type>,
}

// MODELS
// ================================================================================================

/// The contents of a [`Type`].
pub ghost enum TypeModel {
    Unknown,
    Never,
    I1,
    I8,
    U8,
    I16,
    U16,
    I32,
    U32,
    I64,
    U64,
    I128,
    U128,
    U256,
    F64,
    Felt,
    Ptr(AddressSpace, Box<TypeModel>),
    Struct(StructModel),
    Enum(Seq<char>, Box<TypeModel>, bool, u32, u32),
    Array(Box<TypeModel>, usize),
    List(Box<TypeModel>, Seq<char>),
    Function(CallConv, Seq<TypeModel>, Seq<TypeModel>),
}

/// The contents of a [`FieldLayout`].
pub ghost struct FieldModel {
    pub name: Option<Seq<char>>,
    pub align: u16,
    pub offset: u32,
    pub ty: TypeModel,
}

/// The contents of a [`StructLayout`].
pub ghost struct StructModel {
    pub name: Option<Seq<char>>,
    pub repr: TypeRepr,
    pub size: u32,
    pub fields: Seq<FieldModel>,
}

pub open spec fn name_model(name: Option<String>) -> Option<Seq<char>> {
    match name {
        Some(name) => Some(name@),
        None => None,
    }
}

impl Type {
    pub open spec fn view(&self) -> TypeModel
        decreases self,
    {
        match self {
            Type::Unknown => TypeModel::Unknown,
            Type::Never => TypeModel::Never,
            Type::I1 => TypeModel::I1,
            Type::I8 => TypeModel::I8,
            Type::U8 => TypeModel::U8,
            Type::I16 => TypeModel::I16,
            Type::U16 => TypeModel::U16,
            Type::I32 => TypeModel::I32,
            Type::U32 => TypeModel::U32,
            Type::I64 => TypeModel::I64,
            Type::U64 => TypeModel::U64,
            Type::I128 => TypeModel::I128,
            Type::U128 => TypeModel::U128,
            Type::U256 => TypeModel::U256,
            Type::F64 => TypeModel::F64,
            Type::Felt => TypeModel::Felt,
            Type::Ptr { addrspace, pointee } => TypeModel::Ptr(*addrspace, Box::new(pointee.view())),
            Type::Struct(layout) => TypeModel::Struct(layout.view()),
            Type::Enum(layout) => TypeModel::Enum(
                layout.name@,
                Box::new(layout.discriminant.view()),
                layout.is_c_like,
                layout.size,
                layout.align,
            ),
            Type::Array { elem, len } => TypeModel::Array(Box::new(elem.view()), *len),
            Type::List { elem, elem_text } => TypeModel::List(Box::new(elem.view()), elem_text@),
            Type::Function(signature) => TypeModel::Function(
                signature.cc,
                Seq::new(
                    signature.params@.len(),
                    |i: int|
                        if 0 <= i < signature.params@.len() {
                            signature.params[i].view()
                        } else {
                            TypeModel::Unknown
                        },
                ),
                Seq::new(
                    signature.results@.len(),
                    |i: int|
                        if 0 <= i < signature.results@.len() {
                            signature.results[i].view()
                        } else {
                            TypeModel::Unknown
                        },
                ),
            ),
        }
    }
}

impl StructLayout {
    pub open spec fn view(&self) -> StructModel
        decreases self,
    {
        StructModel {
            name: name_model(self.name),
            repr: self.repr,
            size: self.size,
            fields: Seq::new(
                self.fields@.len(),
                |i: int|
                    if 0 <= i < self.fields@.len() {
                        self.fields[i].view()
                    } else {
                        arbitrary()
                    },
            ),
        }
    }
}

impl FieldLayout {
    pub open spec fn view(&self) -> FieldModel
        decreases self,
    {
        FieldModel {
            name: name_model(self.name),
            align: self.align,
            offset: self.offset,
            ty: self.ty.view(),
        }
    }
}

// COPYING
// ================================================================================================

pub fn copy_name(name: &Option<String>) -> (copy: Option<String>)
    ensures
        name_model(copy) == name_model(*name),
{
    match name {
        Some(name) => Some(name.clone()),
        None => None,
    }
}

pub open spec fn type_models(types: Seq<Type>) -> Seq<TypeModel> {
    Seq::new(types.len(), |i: int| types[i]@)
}

impl Type {
    /// A copy of the type.
    pub fn copy(&self) -> (copy: Type)
        ensures
            copy@ == self@,
        decreases self,
    {
        match self {
            Type::Unknown => Type::Unknown,
            Type::Never => Type::Never,
            Type::I1 => Type::I1,
            Type::I8 => Type::I8,
            Type::U8 => Type::U8,
            Type::I16 => Type::I16,
            Type::U16 => Type::U16,
            Type::I32 => Type::I32,
            Type::U32 => Type::U32,
            Type::I64 => Type::I64,
            Type::U64 => Type::U64,
            Type::I128 => Type::I128,
            Type::U128 => Type::U128,
            Type::U256 => Type::U256,
            Type::F64 => Type::F64,
            Type::Felt => Type::Felt,
            Type::Ptr { addrspace, pointee } => Type::Ptr {
                addrspace: *addrspace,
                pointee: Box::new(pointee.copy()),
            },
            Type::Struct(layout) => Type::Struct(Box::new(layout.copy())),
            Type::Enum(layout) => Type::Enum(
                Box::new(
                    EnumLayout {
                        name: layout.name.clone(),
                        discriminant: layout.discriminant.copy(),
                        is_c_like: layout.is_c_like,
                        size: layout.size,
                        align: layout.align,
                    },
                ),
            ),
            Type::Array { elem, len } => Type::Array { elem: Box::new(elem.copy()), len: *len },
            Type::List { elem, elem_text } => Type::List {
                elem: Box::new(elem.copy()),
                elem_text: elem_text.clone(),
            },
            Type::Function(signature) => Type::Function(Box::new(signature.copy())),
        }
    }
}

impl StructLayout {
    /// A copy of the structure.
    pub fn copy(&self) -> (copy: StructLayout)
        ensures
            copy@ == self@,
        decreases self,
    {
        let mut fields: Vec<FieldLayout> = Vec::new();
        let mut i: usize = 0;
        while i < self.fields.len()
            invariant
                i <= self.fields@.len(),
                fields@.len() == i,
                forall|k: int| 0 <= k < i ==> (#[trigger] fields@[k])@ == self.fields@[k]@,
            decreases self.fields@.len() - i,
        {
            let field = &self.fields[i];
            assert(decreases_to!(*self => self.fields));
            fields.push(
                FieldLayout {
                    name: copy_name(&field.name),
                    align: field.align,
                    offset: field.offset,
                    ty: field.ty.copy(),
                },
            );
            i += 1;
        }
        let copy = StructLayout {
            name: copy_name(&self.name),
            repr: self.repr,
            size: self.size,
            fields,
        };
        assert(copy@.fields =~= self@.fields);
        copy
    }
}

impl Signature {
    fn copy_types(types: &Vec<Type>) -> (copy: Vec<Type>)
        ensures
            type_models(copy@) == type_models(types@),
        decreases types,
    {
        let mut copy: Vec<Type> = Vec::new();
        let mut i: usize = 0;
        while i < types.len()
            invariant
                i <= types@.len(),
                copy@.len() == i,
                forall|k: int| 0 <= k < i ==> (#[trigger] copy@[k])@ == types@[k]@,
            decreases types@.len() - i,
        {
            copy.push(types[i].copy());
            i += 1;
        }
        assert(type_models(copy@) =~= type_models(types@));
        copy
    }

    /// The type of procedures with the signature.
    pub open spec fn view(&self) -> TypeModel {
        TypeModel::Function(self.cc, type_models(self.params@), type_models(self.results@))
    }

    /// A copy of the signature.
    pub fn copy(&self) -> (copy: Signature)
        ensures
            copy@ == self@,
            Type::Function(Box::new(copy))@ == Type::Function(Box::new(*self))@,
        decreases self,
    {
        let copy = Signature {
            cc: self.cc,
            params: Signature::copy_types(&self.params),
            results: Signature::copy_types(&self.results),
        };
        proof {
            lemma_function_view(copy);
            lemma_function_view(*self);
        }
        copy
    }
}

/// The type of procedures with a signature.
pub proof fn lemma_function_view(signature: Signature)
    ensures
        Type::Function(Box::new(signature))@ == signature@,
{
    let ty = Type::Function(Box::new(signature));
    assert(ty@->Function_1 =~= type_models(signature.params@));
    assert(ty@->Function_2 =~= type_models(signature.results@));
}

// SIZE AND ALIGNMENT
// ================================================================================================

pub open spec fn larger(a: nat, b: nat) -> nat {
    if a < b {
        b
    } else {
        a
    }
}

pub open spec fn smaller(a: nat, b: nat) -> nat {
    if a < b {
        a
    } else {
        b
    }
}

/// The first multiple of `align` from `n` on.
pub open spec fn align_up(n: nat, align: nat) -> nat
    recommends
        align > 0,
{
    if n % align == 0 {
        n
    } else {
        (n + (align - n % align)) as nat
    }
}

/// Alignments are powers of two.
pub open spec fn is_alignment(align: nat) -> bool {
    align == 1 || align == 2 || align == 4 || align == 8 || align == 16 || align == 32 || align
        == 64 || align == 128 || align == 256 || align == 512 || align == 1024 || align == 2048
        || align == 4096 || align == 8192 || align == 16384 || align == 32768
}

/// The largest alignment of the first `k` fields.
pub open spec fn largest_align(fields: Seq<FieldModel>, k: nat) -> nat
    decreases k,
{
    if k == 0 {
        1
    } else {
        larger(largest_align(fields, (k - 1) as nat), fields[k - 1].align as nat)
    }
}

impl StructModel {
    /// The alignment of a structure: that of its representation, else that of its fields.
    pub open spec fn alignment(self) -> nat {
        match self.repr {
            TypeRepr::Align(align) => align as nat,
            TypeRepr::Packed(align) => align as nat,
            _ => largest_align(self.fields, self.fields.len()),
        }
    }
}

pub open spec fn capped(n: nat) -> Option<nat> {
    if n <= u64::MAX {
        Some(n)
    } else {
        None
    }
}

/// The size of an array: padding comes between its elements.
pub open spec fn array_size(bits: nat, align: nat, len: usize) -> Option<nat> {
    if len == 0 {
        Some(0)
    } else if len == 1 {
        Some(bits)
    } else if align == 0 {
        None
    } else {
        capped(bits + align_up(bits, 8 * align) * ((len - 1) as nat))
    }
}

impl TypeModel {
    /// The alignment of values of the type, in bytes.
    pub open spec fn min_alignment(self) -> nat
        decreases self,
    {
        match self {
            TypeModel::Unknown | TypeModel::Never | TypeModel::I1 | TypeModel::I8
            | TypeModel::U8 => 1,
            TypeModel::I16 | TypeModel::U16 => 2,
            TypeModel::I128 | TypeModel::U128 | TypeModel::U256 => 16,
            TypeModel::Struct(layout) => layout.alignment(),
            TypeModel::Enum(_, _, _, _, align) => align as nat,
            TypeModel::Array(elem, _) => elem.min_alignment(),
            TypeModel::List(elem, _) => elem.min_alignment(),
            _ => 4,
        }
    }

    /// The size of values of the type, in bits. Lists have none, nor have arrays that no memory
    /// can hold.
    pub open spec fn size_in_bits(self) -> Option<nat>
        decreases self,
    {
        match self {
            TypeModel::Unknown | TypeModel::Never => Some(0),
            TypeModel::I1 => Some(1),
            TypeModel::I8 | TypeModel::U8 => Some(8),
            TypeModel::I16 | TypeModel::U16 => Some(16),
            TypeModel::I64 | TypeModel::U64 | TypeModel::F64 => Some(64),
            TypeModel::I128 | TypeModel::U128 => Some(128),
            TypeModel::U256 => Some(256),
            TypeModel::Struct(layout) => Some((layout.size * 8) as nat),
            TypeModel::Enum(_, _, _, size, _) => Some((size * 8) as nat),
            TypeModel::Array(elem, len) => match elem.size_in_bits() {
                None => None,
                Some(bits) => array_size(bits, elem.min_alignment(), len),
            },
            TypeModel::List(_, _) => None,
            _ => Some(32),
        }
    }

    /// The size of values of the type, in bytes.
    pub open spec fn size_in_bytes(self) -> Option<nat> {
        match self.size_in_bits() {
            Some(bits) => Some((bits + 7) / 8),
            None => None,
        }
    }

    /// Integers, to which field elements belong.
    pub open spec fn is_integer(self) -> bool {
        match self {
            TypeModel::I1 | TypeModel::I8 | TypeModel::U8 | TypeModel::I16 | TypeModel::U16
            | TypeModel::I32 | TypeModel::U32 | TypeModel::I64 | TypeModel::U64
            | TypeModel::I128 | TypeModel::U128 | TypeModel::U256 | TypeModel::Felt => true,
            _ => false,
        }
    }
}

// LAYOUT
// ================================================================================================

/// A field before it has a place.
pub ghost struct NamedModel {
    pub name: Option<Seq<char>>,
    pub ty: TypeModel,
}

/// The largest alignment of the first `k` types.
pub open spec fn widest(fields: Seq<NamedModel>, k: nat) -> nat
    decreases k,
{
    if k == 0 {
        1
    } else {
        larger(widest(fields, (k - 1) as nat), fields[k - 1].ty.min_alignment())
    }
}

/// Where a field begins and what follows it: behind the fields before it and its padding.
///
/// In a transparent structure only one field takes space.
pub open spec fn place(repr: TypeRepr, offset: nat, ty: TypeModel) -> Option<(nat, nat, nat)> {
    let align = ty.min_alignment();
    match ty.size_in_bytes() {
        None => None,
        Some(size) => if repr is Transparent {
            if size == 0 {
                Some((1nat, offset, offset))
            } else if align <= u16::MAX && offset == 0 && size <= u32::MAX {
                Some((align, offset, size))
            } else {
                None
            }
        } else {
            let used = match repr {
                TypeRepr::Packed(packed) => smaller(packed as nat, align),
                _ => align,
            };
            if align > u16::MAX || !is_alignment(used) || align_up(offset, used) + size
                > u32::MAX {
                None
            } else {
                Some((used, align_up(offset, used), align_up(offset, used) + size))
            }
        },
    }
}

/// The places of the first `k` fields, and what follows them.
pub open spec fn placed(repr: TypeRepr, fields: Seq<NamedModel>, k: nat) -> Option<
    (Seq<FieldModel>, nat),
>
    decreases k,
{
    if k == 0 {
        Some((Seq::empty(), 0nat))
    } else {
        match placed(repr, fields, (k - 1) as nat) {
            None => None,
            Some((before, offset)) => match place(repr, offset, fields[k - 1].ty) {
                None => None,
                Some((align, start, end)) => Some(
                    (
                        before.push(
                            FieldModel {
                                name: fields[k - 1].name,
                                align: align as u16,
                                offset: start as u32,
                                ty: fields[k - 1].ty,
                            },
                        ),
                        end,
                    ),
                ),
            },
        }
    }
}

/// The most fields that a structure can have.
pub const MAX_FIELDS: usize = 256;

/// A structure with its layout, if the rules of its representation admit one.
pub open spec fn laid_out(name: Option<Seq<char>>, repr: TypeRepr, fields: Seq<NamedModel>) -> Option<
    StructModel,
> {
    let n = fields.len();
    match placed(repr, fields, n) {
        None => None,
        Some((places, end)) => if n > MAX_FIELDS {
            None
        } else if repr is Transparent {
            Some(StructModel { name, repr, size: end as u32, fields: places })
        } else {
            let natural = widest(fields, n);
            let align = match repr {
                TypeRepr::Align(align) => larger(align as nat, natural),
                TypeRepr::Packed(align) => smaller(align as nat, natural),
                _ => natural,
            };
            if natural > u16::MAX || !is_alignment(align) || align_up(end, align) > u32::MAX {
                None
            } else {
                Some(
                    StructModel { name, repr, size: align_up(end, align) as u32, fields: places },
                )
            }
        },
    }
}

/// A field before it has a place.
pub struct NamedType {
    pub name: Option<String>,
    pub ty: Type,
}

impl NamedType {
    pub open spec fn view(&self) -> NamedModel {
        NamedModel { name: name_model(self.name), ty: self.ty@ }
    }
}

pub open spec fn named_models(fields: Seq<NamedType>) -> Seq<NamedModel> {
    Seq::new(fields.len(), |i: int| fields[i]@)
}

/// Tests for a power of two.
fn alignment_ok(align: u64) -> (res: bool)
    ensures
        res == is_alignment(align as nat),
{
    align == 1 || align == 2 || align == 4 || align == 8 || align == 16 || align == 32 || align
        == 64 || align == 128 || align == 256 || align == 512 || align == 1024 || align == 2048
        || align == 4096 || align == 8192 || align == 16384 || align == 32768
}

/// The size of an array: padding comes between its elements.
fn array_bits(bits: u64, align: u64, len: usize) -> (res: Option<u64>)
    requires
        align <= u32::MAX,
    ensures
        match res {
            Some(n) => Some(n as nat) == array_size(bits as nat, align as nat, len),
            None => array_size(bits as nat, align as nat, len) is None,
        },
{
    if len == 0 {
        Some(0)
    } else if len == 1 {
        Some(bits)
    } else if align == 0 {
        None
    } else {
        let ghost up = align_up(bits as nat, (8 * align) as nat);
        let ghost more = (len - 1) as nat;
        proof {
            lemma_align_up(bits as nat, (8 * align) as nat);
            assert(up * more >= up) by (nonlinear_arith)
                requires
                    more >= 1,
                    up >= 0,
            ;
        }
        match checked_align_up(bits, 8 * align) {
            None => None,
            Some(padded) => match padded.checked_mul(len as u64 - 1) {
                None => None,
                Some(rest) => bits.checked_add(rest),
            },
        }
    }
}

impl Type {
    /// The alignment of values of the type, in bytes.
    pub fn min_alignment(&self) -> (align: u64)
        ensures
            align == self@.min_alignment(),
            align <= u32::MAX,
        decreases self,
    {
        match self {
            Type::Unknown | Type::Never | Type::I1 | Type::I8 | Type::U8 => 1,
            Type::I16 | Type::U16 => 2,
            Type::I128 | Type::U128 | Type::U256 => 16,
            Type::Struct(layout) => layout.min_alignment(),
            Type::Enum(layout) => layout.align as u64,
            Type::Array { elem, len: _ } => elem.min_alignment(),
            Type::List { elem, elem_text: _ } => elem.min_alignment(),
            _ => 4,
        }
    }

    /// The size of values of the type, in bits.
    pub fn size_in_bits(&self) -> (bits: Option<u64>)
        ensures
            match bits {
                Some(bits) => self@.size_in_bits() == Some(bits as nat),
                None => self@.size_in_bits() is None,
            },
        decreases self,
    {
        match self {
            Type::Unknown | Type::Never => Some(0),
            Type::I1 => Some(1),
            Type::I8 | Type::U8 => Some(8),
            Type::I16 | Type::U16 => Some(16),
            Type::I64 | Type::U64 | Type::F64 => Some(64),
            Type::I128 | Type::U128 => Some(128),
            Type::U256 => Some(256),
            Type::Struct(layout) => {
                assert(layout@.size == layout.size);
                Some(layout.size as u64 * 8)
            },
            Type::Enum(layout) => Some(layout.size as u64 * 8),
            Type::Array { elem, len } => match elem.size_in_bits() {
                None => None,
                Some(bits) => {
                    array_bits(bits, elem.min_alignment(), *len)
                },
            },
            Type::List { elem: _, elem_text: _ } => None,
            _ => Some(32),
        }
    }

    /// The size of values of the type, in bytes.
    pub fn size_in_bytes(&self) -> (bytes: Option<u64>)
        ensures
            match bytes {
                Some(bytes) => self@.size_in_bytes() == Some(bytes as nat),
                None => self@.size_in_bytes() is None,
            },
    {
        match self.size_in_bits() {
            Some(bits) => Some(bits / 8 + if bits % 8 == 0 {
                0u64
            } else {
                1u64
            }),
            None => None,
        }
    }

    /// Tells integers from other types.
    pub fn is_integer(&self) -> (res: bool)
        ensures
            res == self@.is_integer(),
    {
        match self {
            Type::I1 | Type::I8 | Type::U8 | Type::I16 | Type::U16 | Type::I32 | Type::U32
            | Type::I64 | Type::U64 | Type::I128 | Type::U128 | Type::U256 | Type::Felt => true,
            _ => false,
        }
    }
}

pub proof fn lemma_align_up(n: nat, align: nat)
    requires
        align > 0,
    ensures
        n <= align_up(n, align) < n + align,
{
}

/// The first multiple of `align` from `n` on.
fn checked_align_up(n: u64, align: u64) -> (res: Option<u64>)
    requires
        align > 0,
    ensures
        match res {
            Some(up) => up == align_up(n as nat, align as nat),
            None => align_up(n as nat, align as nat) > u64::MAX,
        },
{
    let rest: u64 = n % align;
    if rest == 0 {
        Some(n)
    } else {
        n.checked_add(align - rest)
    }
}

impl StructLayout {
    /// The alignment of the structure.
    pub fn min_alignment(&self) -> (align: u64)
        ensures
            align == self@.alignment(),
            align <= u16::MAX,
    {
        match self.repr {
            TypeRepr::Align(align) => align as u64,
            TypeRepr::Packed(align) => align as u64,
            _ => {
                let mut largest: u64 = 1;
                let mut i: usize = 0;
                while i < self.fields.len()
                    invariant
                        i <= self.fields@.len(),
                        largest == largest_align(self@.fields, i as nat),
                        largest <= u16::MAX,
                    decreases self.fields@.len() - i,
                {
                    assert(self@.fields[i as int] == self.fields@[i as int]@);
                    let align: u64 = self.fields[i].align as u64;
                    if largest < align {
                        largest = align;
                    }
                    i += 1;
                }
                largest
            },
        }
    }
}

fn place_field(repr: TypeRepr, offset: u64, ty: &Type) -> (res: Option<(u64, u64, u64)>)
    requires
        offset <= u32::MAX,
    ensures
        match res {
            Some((align, start, end)) => {
                &&& place(repr, offset as nat, ty@) == Some(
                    (align as nat, start as nat, end as nat),
                )
                &&& align <= u16::MAX
                &&& start <= end <= u32::MAX
            },
            None => place(repr, offset as nat, ty@) is None,
        },
{
    let align: u64 = ty.min_alignment();
    let size: u64 = match ty.size_in_bytes() {
        None => {
            return None;
        },
        Some(size) => size,
    };
    match repr {
        TypeRepr::Transparent => {
            if size == 0 {
                Some((1, offset, offset))
            } else if align <= 65535 && offset == 0 && size <= 4294967295 {
                Some((align, offset, size))
            } else {
                None
            }
        },
        _ => {
            let used: u64 = match repr {
                TypeRepr::Packed(packed) => if (packed as u64) < align {
                    packed as u64
                } else {
                    align
                },
                _ => align,
            };
            if align > 65535 || !alignment_ok(used) {
                return None;
            }
            proof {
                lemma_align_up(offset as nat, used as nat);
            }
            match checked_align_up(offset, used) {
                None => None,
                Some(start) => if size > 4294967295 || start + size > 4294967295 {
                    None
                } else {
                    Some((used, start, start + size))
                },
            }
        },
    }
}

proof fn lemma_placed_none(repr: TypeRepr, fields: Seq<NamedModel>, k: nat, n: nat)
    requires
        k <= n,
        placed(repr, fields, k) is None,
    ensures
        placed(repr, fields, n) is None,
    decreases n - k,
{
    if k < n {
        lemma_placed_none(repr, fields, k, (n - 1) as nat);
    }
}

proof fn lemma_placed_len(repr: TypeRepr, fields: Seq<NamedModel>, k: nat)
    ensures
        placed(repr, fields, k) matches Some((places, _)) ==> places.len() == k,
    decreases k,
{
    if k > 0 {
        lemma_placed_len(repr, fields, (k - 1) as nat);
    }
}

impl StructLayout {
    pub open spec fn fields_view(fields: Seq<FieldLayout>) -> Seq<FieldModel> {
        Seq::new(fields.len(), |i: int| fields[i]@)
    }

    fn widest_field(fields: &Vec<NamedType>) -> (align: u64)
        ensures
            align == widest(named_models(fields@), fields@.len()),
            align <= u32::MAX,
    {
        let mut natural: u64 = 1;
        let mut i: usize = 0;
        while i < fields.len()
            invariant
                i <= fields@.len(),
                natural == widest(named_models(fields@), i as nat),
                natural <= u32::MAX,
            decreases fields@.len() - i,
        {
            assert(named_models(fields@)[i as int] == fields@[i as int]@);
            let align: u64 = fields[i].ty.min_alignment();
            if natural < align {
                natural = align;
            }
            i += 1;
        }
        natural
    }

    fn place_fields(repr: TypeRepr, list: Vec<NamedType>) -> (res: Option<(Vec<FieldLayout>, u64)>)
        ensures
            match res {
                Some((places, end)) => {
                    &&& placed(repr, named_models(list@), list@.len()) == Some(
                        (StructLayout::fields_view(places@), end as nat),
                    )
                    &&& end <= u32::MAX
                },
                None => placed(repr, named_models(list@), list@.len()) is None,
            },
    {
        let ghost all = named_models(list@);
        let mut rest = list;
        let n: usize = rest.len();
        let mut places: Vec<FieldLayout> = Vec::new();
        let mut offset: u64 = 0;
        let mut i: usize = 0;
        assert(StructLayout::fields_view(places@) =~= Seq::empty());
        while i < n
            invariant
                i <= n == all.len() == list@.len(),
                all == named_models(list@),
                rest@.len() == n - i,
                forall|k: int| 0 <= k < rest@.len() ==> #[trigger] rest@[k]@ == all[k + i],
                offset <= u32::MAX,
                placed(repr, all, i as nat) == Some(
                    (StructLayout::fields_view(places@), offset as nat),
                ),
            decreases n - i,
        {
            let field = rest.remove(0);
            assert(field@ == all[i as int]);
            match place_field(repr, offset, &field.ty) {
                None => {
                    proof {
                        lemma_placed_none(repr, all, (i + 1) as nat, n as nat);
                    }
                    return None;
                },
                Some((align, start, end)) => {
                    let ghost before = StructLayout::fields_view(places@);
                    let NamedType { name, ty } = field;
                    let place = FieldLayout {
                        name,
                        align: align as u16,
                        offset: start as u32,
                        ty,
                    };
                    places.push(place);
                    assert(StructLayout::fields_view(places@) =~= before.push(place@));
                    offset = end;
                },
            }
            i += 1;
        }
        Some((places, offset))
    }

    /// Lays a structure out. `None` if its representation does not admit its fields.
    pub fn from_parts(name: Option<String>, repr: TypeRepr, fields: Vec<NamedType>) -> (layout: Option<
        StructLayout,
    >)
        ensures
            match layout {
                Some(layout) => laid_out(name_model(name), repr, named_models(fields@)) == Some(
                    layout@,
                ),
                None => laid_out(name_model(name), repr, named_models(fields@)) is None,
            },
    {
        let n: usize = fields.len();
        let natural: u64 = StructLayout::widest_field(&fields);
        let (places, end): (Vec<FieldLayout>, u64) = match StructLayout::place_fields(
            repr,
            fields,
        ) {
            None => {
                return None;
            },
            Some(placed) => placed,
        };
        if n > MAX_FIELDS {
            return None;
        }
        let size: u64 = match repr {
            TypeRepr::Transparent => end,
            _ => {
                let align: u64 = match repr {
                    TypeRepr::Align(align) => if (align as u64) < natural {
                        natural
                    } else {
                        align as u64
                    },
                    TypeRepr::Packed(align) => if (align as u64) < natural {
                        align as u64
                    } else {
                        natural
                    },
                    _ => natural,
                };
                if natural > 65535 || !alignment_ok(align) {
                    return None;
                }
                proof {
                    lemma_align_up(end as nat, align as nat);
                }
                match checked_align_up(end, align) {
                    None => {
                        return None;
                    },
                    Some(size) => if size > 4294967295 {
                        return None;
                    } else {
                        size
                    },
                }
            },
        };
        let layout = StructLayout { name, repr, size: size as u32, fields: places };
        assert(layout@.fields =~= StructLayout::fields_view(layout.fields@));
        Some(layout)
    }
}

// LAWS
// ================================================================================================

/// Fields follow one another without overlap, inside of the structure, each at an address that its
/// alignment divides.
pub proof fn law_fields_in_order(
    name: Option<Seq<char>>,
    repr: TypeRepr,
    fields: Seq<NamedModel>,
    i: int,
)
    requires
        laid_out(name, repr, fields) is Some,
        0 <= i < fields.len(),
    ensures
        ({
            let layout = laid_out(name, repr, fields)->0;
            let field = layout.fields[i];
            let end = field.offset + fields[i].ty.size_in_bytes()->0;
            &&& layout.fields.len() == fields.len()
            &&& field.name == fields[i].name
            &&& field.ty == fields[i].ty
            &&& field.align > 0 ==> field.offset % (field.align as u32) == 0
            &&& end <= layout.size
            &&& i + 1 < fields.len() ==> end <= layout.fields[i + 1].offset
        }),
{
    let n = fields.len();
    lemma_placed_field(repr, fields, i, n);
    lemma_placed_len(repr, fields, n);
    if i + 1 < n {
        lemma_placed_field(repr, fields, i + 1, n);
        lemma_placed_field(repr, fields, i, (i + 1) as nat);
        lemma_placed_some(repr, fields, (i + 1) as nat, n);
    }
    let end = (placed(repr, fields, n)->0).1;
    if !(repr is Transparent) {
        let align = match repr {
            TypeRepr::Align(align) => larger(align as nat, widest(fields, n)),
            TypeRepr::Packed(align) => smaller(align as nat, widest(fields, n)),
            _ => widest(fields, n),
        };
        lemma_align_up(end, align);
    }
}

proof fn lemma_placed_some(repr: TypeRepr, fields: Seq<NamedModel>, k: nat, n: nat)
    requires
        k <= n,
        placed(repr, fields, n) is Some,
    ensures
        placed(repr, fields, k) is Some,
{
    if placed(repr, fields, k) is None {
        lemma_placed_none(repr, fields, k, n);
    }
}

/// What placing `k` fields says of field `i`.
proof fn lemma_placed_field(repr: TypeRepr, fields: Seq<NamedModel>, i: int, k: nat)
    requires
        0 <= i < k <= fields.len(),
        placed(repr, fields, k) is Some,
    ensures
        ({
            let (places, end) = placed(repr, fields, k)->0;
            let before = (placed(repr, fields, i as nat)->0).1;
            &&& places.len() == k
            &&& placed(repr, fields, i as nat) is Some
            &&& place(repr, before, fields[i].ty) is Some
            &&& places[i].name == fields[i].name
            &&& places[i].ty == fields[i].ty
            &&& places[i].align == (place(repr, before, fields[i].ty)->0).0
            &&& places[i].offset == (place(repr, before, fields[i].ty)->0).1
            &&& before <= places[i].offset
            &&& places[i].offset + fields[i].ty.size_in_bytes()->0 <= end
            &&& end <= u32::MAX
            &&& places[i].align > 0 ==> places[i].offset % (places[i].align as u32) == 0
        }),
    decreases k,
{
    lemma_placed_len(repr, fields, (k - 1) as nat);
    lemma_placed_len(repr, fields, k);
    lemma_placed_end(repr, fields, (k - 1) as nat);
    let before = (placed(repr, fields, (k - 1) as nat)->0).1;
    let (align, start, end) = place(repr, before, fields[k - 1].ty)->0;
    if i < k - 1 {
        lemma_placed_field(repr, fields, i, (k - 1) as nat);
        if !(repr is Transparent) {
            lemma_align_up(before, align);
        }
    } else if !(repr is Transparent) {
        lemma_align_up(before, align);
        lemma_aligned(before, align);
    } else if align > 0 {
        assert(start == 0 || align == 1);
    }
}

proof fn lemma_placed_end(repr: TypeRepr, fields: Seq<NamedModel>, k: nat)
    ensures
        placed(repr, fields, k) matches Some((_, end)) ==> end <= u32::MAX,
    decreases k,
{
    if k > 0 {
        lemma_placed_end(repr, fields, (k - 1) as nat);
    }
}

proof fn lemma_aligned(n: nat, align: nat)
    requires
        align > 0,
    ensures
        align_up(n, align) % align == 0,
{
    if n % align != 0 {
        vstd::arithmetic::div_mod::lemma_fundamental_div_mod(n as int, align as int);
        let q = n as int / align as int;
        assert(align_up(n, align) == align * (q + 1)) by (nonlinear_arith)
            requires
                n == align * q + n % align,
                align_up(n, align) == n + (align - n % align),
        ;
        vstd::arithmetic::div_mod::lemma_mod_multiples_basic(q + 1, align as int);
        assert(align * (q + 1) == (q + 1) * align) by (nonlinear_arith);
    }
}

proof fn lemma_widest_of_placed(
    repr: TypeRepr,
    fields: Seq<NamedModel>,
    places: Seq<FieldModel>,
    k: nat,
)
    requires
        k <= fields.len(),
        fields.len() == places.len(),
        forall|i: int|
            0 <= i < places.len() ==> (#[trigger] places[i]).align == fields[i].ty.min_alignment(),
    ensures
        largest_align(places, k) == widest(fields, k),
    decreases k,
{
    if k > 0 {
        lemma_widest_of_placed(repr, fields, places, (k - 1) as nat);
        assert(places[k - 1].align == fields[k - 1].ty.min_alignment());
    }
}

/// The place of a field behind those before it.
proof fn lemma_field_tight(repr: TypeRepr, fields: Seq<NamedModel>, i: int, n: nat)
    requires
        0 <= i < n <= fields.len(),
        placed(repr, fields, n) is Some,
        !(repr is Transparent),
    ensures
        ({
            let places = (placed(repr, fields, n)->0).0;
            &&& i == 0 ==> places[i].offset == 0
            &&& i > 0 ==> places[i].offset < places[i - 1].offset + fields[i
                - 1].ty.size_in_bytes()->0 + places[i].align
            &&& match repr {
                TypeRepr::Packed(packed) => places[i].align == smaller(
                    packed as nat,
                    fields[i].ty.min_alignment(),
                ),
                _ => places[i].align == fields[i].ty.min_alignment(),
            }
        }),
{
    lemma_placed_field(repr, fields, i, n);
    let before = (placed(repr, fields, i as nat)->0).1;
    let used = (place(repr, before, fields[i].ty)->0).0;
    lemma_align_up(before, used);
    if i > 0 {
        lemma_placed_field(repr, fields, i - 1, n);
        lemma_placed_field(repr, fields, i - 1, i as nat);
        lemma_last_end(repr, fields, i as nat);
    }
}

/// Fields end where the last of them does.
proof fn lemma_last_end(repr: TypeRepr, fields: Seq<NamedModel>, k: nat)
    requires
        0 < k <= fields.len(),
        placed(repr, fields, k) is Some,
        !(repr is Transparent),
    ensures
        ({
            let (places, end) = placed(repr, fields, k)->0;
            &&& places.len() == k
            &&& end == places[k - 1].offset + fields[k - 1].ty.size_in_bytes()->0
        }),
{
    lemma_placed_field(repr, fields, k - 1, k);
    let before = (placed(repr, fields, (k - 1) as nat)->0).1;
    let (align, start, stop) = place(repr, before, fields[k - 1].ty)->0;
}

/// A layout wastes nothing: the first field is at the start, every other at the first place behind
/// the one before it that its alignment allows, and the size is the least that holds all fields and
/// that the alignment of the structure divides. A packed field is aligned no more than the structure
/// is packed, any other as its type asks for.
pub proof fn law_layouts_waste_nothing(
    name: Option<Seq<char>>,
    repr: TypeRepr,
    fields: Seq<NamedModel>,
    i: int,
)
    requires
        laid_out(name, repr, fields) is Some,
        0 <= i < fields.len(),
        !(repr is Transparent),
    ensures
        ({
            let layout = laid_out(name, repr, fields)->0;
            let field = layout.fields[i];
            let n = fields.len();
            &&& i == 0 ==> field.offset == 0
            &&& i > 0 ==> field.offset < layout.fields[i - 1].offset + fields[i
                - 1].ty.size_in_bytes()->0 + field.align
            &&& match repr {
                TypeRepr::Packed(packed) => field.align == smaller(
                    packed as nat,
                    fields[i].ty.min_alignment(),
                ),
                _ => field.align == fields[i].ty.min_alignment(),
            }
            &&& !(repr is Packed) && !(repr is Align) ==> layout.size as nat % layout.alignment()
                == 0 && layout.size < layout.fields[n - 1].offset + fields[n
                - 1].ty.size_in_bytes()->0 + layout.alignment()
        }),
{
    let n = fields.len();
    let (places, end) = placed(repr, fields, n)->0;
    lemma_field_tight(repr, fields, i, n);
    lemma_last_end(repr, fields, n);
    if !(repr is Packed) && !(repr is Align) {
        assert forall|j: int| 0 <= j < places.len() implies (#[trigger] places[j]).align
            == fields[j].ty.min_alignment() by {
            lemma_field_tight(repr, fields, j, n);
        }
        lemma_widest_of_placed(repr, fields, places, n);
        lemma_align_up(end, widest(fields, n));
        lemma_aligned(end, widest(fields, n));
    }
}

/// A value without parts is aligned by its size: one of up to four bytes by as many, one of eight by
/// four, and a wider one by sixteen; so its alignment divides its size, and many of them in a row
/// leave nothing free.
pub proof fn law_scalars_are_aligned_by_their_size(ty: TypeModel)
    requires
        ty.is_integer() || ty is F64,
    ensures
        ({
            let size = ty.size_in_bytes()->0;
            &&& ty.min_alignment() == if size <= 4 {
                size
            } else if size <= 8 {
                4
            } else {
                16
            }
            &&& size % ty.min_alignment() == 0
        }),
{
    let bits = ty.size_in_bits()->0;
    let size = ty.size_in_bytes()->0;
    let align = ty.min_alignment();
    assert(bits == 1 || bits == 8 || bits == 16 || bits == 32 || bits == 64 || bits == 128 || bits
        == 256);
    assert(size == 1 || size == 2 || size == 4 || size == 8 || size == 16 || size == 32);
    assert(align == 1 || align == 2 || align == 4 || align == 16);
}

} // verus!
