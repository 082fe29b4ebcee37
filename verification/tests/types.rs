//! Types, their layout, and their descriptions in debug information.

use std::sync::Arc;

use midenc_hir_type::Type as Hir;
use miden_mast::debug_types::{
    DebugFieldInfo, DebugPrimitiveType, DebugTypeError, DebugTypeInfo, DebugTypesSection,
};
use miden_mast::path::{GlobalItemIndex, Path, SourceSpan};
use miden_mast::type_decl::{
    ConstantExpr, EnumType, Ident, SemanticAnalysisError, TypeAlias, TypeDecl, Variant, Visibility,
};
use miden_mast::type_expr::{
    ref_step, ArrayType, PointerType, RefStep, StructField, StructType, SymbolResolution,
    SymbolResolutionError, TypeExpr, TypeResolver, MAX_TYPE_EXPR_NESTING,
};
use miden_mast::types::{
    AddressSpace, CallConv, EnumLayout, NamedType, Signature, StructLayout, Type, TypeRepr,
};

fn span() -> SourceSpan {
    SourceSpan::unknown()
}

fn path(components: &[&str]) -> Path {
    Path {
        is_absolute: false,
        components: components.iter().map(|c| c.to_string()).collect(),
    }
}

fn primitive(ty: Type) -> TypeExpr {
    TypeExpr::Primitive(span(), ty)
}

fn field(name: &str, ty: TypeExpr) -> StructField {
    StructField { span: span(), name: name.to_string(), ty }
}

struct DummyResolver {
    asked: usize,
}

impl TypeResolver<SymbolResolutionError> for DummyResolver {
    fn resolve_local_failed(&self, err: SymbolResolutionError) -> SymbolResolutionError {
        err
    }

    fn get_type(
        &mut self,
        context: SourceSpan,
        _gid: GlobalItemIndex,
    ) -> Result<Type, SymbolResolutionError> {
        Err(SymbolResolutionError::UndefinedSymbol { span: context })
    }

    fn get_local_type(
        &mut self,
        _context: SourceSpan,
        _id: u32,
    ) -> Result<Option<Type>, SymbolResolutionError> {
        Ok(None)
    }

    fn resolve_type_ref(
        &mut self,
        span: SourceSpan,
        _path: &Path,
    ) -> Result<SymbolResolution, SymbolResolutionError> {
        self.asked += 1;
        Err(SymbolResolutionError::UndefinedSymbol { span })
    }
}

fn nested_type_expr(depth: usize) -> TypeExpr {
    let mut expr = primitive(Type::Felt);
    for i in 0..depth {
        expr = match i % 3 {
            0 => TypeExpr::Ptr(PointerType::new(expr)),
            1 => TypeExpr::Array(ArrayType::new(expr, 1)),
            _ => TypeExpr::Struct(StructType::new(None, vec![field("field", expr)])),
        };
    }
    expr
}

// RESOLUTION
// ================================================================================================

#[test]
fn type_expr_depth_boundary() {
    let mut resolver = DummyResolver { asked: 0 };
    let ok_expr = nested_type_expr(MAX_TYPE_EXPR_NESTING);
    assert!(ok_expr.resolve_type(&mut resolver).is_ok());
    let err_expr = nested_type_expr(MAX_TYPE_EXPR_NESTING + 1);
    let Err(err) = err_expr.resolve_type(&mut resolver) else { panic!("expected an error") };
    assert!(matches!(
        err,
        SymbolResolutionError::TypeExpressionDepthExceeded { max_depth, .. }
            if max_depth == MAX_TYPE_EXPR_NESTING
    ));
}

#[test]
fn struct_type_expr_resolution_preserves_field_names() {
    let mut resolver = DummyResolver { asked: 0 };
    let expr = TypeExpr::Struct(StructType::new(
        Some("Pair".to_string()),
        vec![field("left", primitive(Type::Felt)), field("right", primitive(Type::Felt))],
    ));
    let Ok(Some(Type::Struct(ty))) = expr.resolve_type(&mut resolver) else {
        panic!("expected struct type");
    };
    assert_eq!(ty.name.as_deref(), Some("Pair"));
    let names: Vec<Option<&str>> = ty.fields.iter().map(|f| f.name.as_deref()).collect();
    assert_eq!(names, [Some("left"), Some("right")]);
    let offsets: Vec<u32> = ty.fields.iter().map(|f| f.offset).collect();
    assert_eq!(offsets, [0, 4]);
    assert_eq!(ty.size, 8);
}

#[test]
fn resolution_asks_for_references_in_order_and_stops_at_a_failure() {
    let mut resolver = DummyResolver { asked: 0 };
    let expr = TypeExpr::Struct(StructType::new(
        None,
        vec![
            field("a", TypeExpr::Ref(span(), path(&["Foo"]))),
            field("b", TypeExpr::Ref(span(), path(&["Bar"]))),
        ],
    ));
    assert!(expr.resolve_type(&mut resolver).is_err());
    assert_eq!(resolver.asked, 1);
    let plain = TypeExpr::Array(ArrayType::new(primitive(Type::U8), 3));
    let Ok(Some(Type::Array { elem, len })) = plain.resolve_type(&mut resolver) else {
        panic!("expected an array");
    };
    assert!(matches!(*elem, Type::U8));
    assert_eq!(len, 3);
    assert_eq!(resolver.asked, 1);
}

#[test]
fn pointers_resolve_to_byte_pointers() {
    let mut resolver = DummyResolver { asked: 0 };
    let expr = TypeExpr::Ptr(PointerType::new(primitive(Type::U8)));
    let Ok(Some(Type::Ptr { addrspace, pointee })) = expr.resolve_type(&mut resolver) else {
        panic!("expected a pointer");
    };
    assert_eq!(addrspace, AddressSpace::Byte);
    assert!(matches!(*pointee, Type::U8));
}

#[test]
fn structures_that_have_no_layout_do_not_resolve() {
    let mut resolver = DummyResolver { asked: 0 };
    let expr = TypeExpr::Struct(
        StructType::new(
            None,
            vec![field("a", primitive(Type::U8)), field("b", primitive(Type::U8))],
        )
        .with_repr(TypeRepr::Transparent),
    );
    assert!(matches!(
        expr.resolve_type(&mut resolver),
        Err(SymbolResolutionError::InvalidStruct { .. })
    ));
}

#[test]
fn paths_are_followed_until_they_lead_somewhere() {
    let here = path(&["a", "T"]);
    let there = path(&["b", "T"]);
    let elsewhere = SourceSpan { source: 1, start: 2, end: 3 };
    let gid = GlobalItemIndex { module: 1, index: 2 };
    assert!(matches!(ref_step(&here, SymbolResolution::Local(7)), RefStep::AskLocal(7)));
    assert!(matches!(
        ref_step(&here, SymbolResolution::Exact(gid)),
        RefStep::AskGlobal(g) if g == gid
    ));
    assert!(matches!(
        ref_step(&here, SymbolResolution::External(span(), path(&["a", "T"]))),
        RefStep::Undefined
    ));
    assert!(matches!(
        ref_step(&here, SymbolResolution::External(elsewhere, there)),
        RefStep::LookUp(at, p) if at == elsewhere && p.to_string() == "b::T"
    ));
    assert!(matches!(
        ref_step(&here, SymbolResolution::Module(path(&["a"]))),
        RefStep::NoType
    ));
    assert!(matches!(ref_step(&here, SymbolResolution::MastRoot), RefStep::NoType));
}

#[test]
fn references_come_once_and_in_order() {
    let expr = TypeExpr::Struct(StructType::new(
        None,
        vec![
            field("a", TypeExpr::Ref(span(), path(&["z"]))),
            field("b", TypeExpr::Ptr(PointerType::new(TypeExpr::Ref(span(), path(&["m", "x"]))))),
            field("c", TypeExpr::Array(ArrayType::new(TypeExpr::Ref(span(), path(&["z"])), 2))),
            field("d", primitive(Type::Felt)),
            field("e", TypeExpr::Ref(span(), path(&["m"]))),
            field("f", TypeExpr::Ref(span(), path(&["b"]))),
        ],
    ));
    let found: Vec<String> = expr.references().iter().map(|r| r.path.to_string()).collect();
    assert_eq!(found, ["b", "m", "m::x", "z"]);
}

#[test]
fn references_tell_where_they_are_written() {
    let place = |start: u32| SourceSpan { source: 1, start, end: start + 1 };
    let expr = TypeExpr::Struct(StructType::new(
        None,
        vec![
            field("a", TypeExpr::Ref(place(1), path(&["z"]))),
            field("b", TypeExpr::Ref(place(2), path(&["m"]))),
            field("c", TypeExpr::Array(ArrayType::new(TypeExpr::Ref(place(3), path(&["z"])), 2))),
        ],
    ));
    let found: Vec<(String, SourceSpan)> =
        expr.references().iter().map(|r| (r.path.to_string(), r.span)).collect();
    assert_eq!(found, [("m".to_string(), place(2)), ("z".to_string(), place(3))]);
}

// LAYOUT
// ================================================================================================

fn named(types: Vec<Type>) -> Vec<NamedType> {
    types.into_iter().map(|ty| NamedType { name: None, ty }).collect()
}

fn places(layout: &StructLayout) -> (u32, Vec<(u16, u32)>) {
    (layout.size, layout.fields.iter().map(|f| (f.align, f.offset)).collect())
}

fn reference_places(layout: &midenc_hir_type::StructType) -> (u32, Vec<(u16, u32)>) {
    (
        layout.size() as u32,
        layout.fields().iter().map(|f| (f.align, f.offset)).collect(),
    )
}

fn outside(ty: &Type) -> midenc_hir_type::Type {
    match ty {
        Type::I1 => Hir::I1,
        Type::U8 => Hir::U8,
        Type::I16 => Hir::I16,
        Type::U32 => Hir::U32,
        Type::U64 => Hir::U64,
        Type::U128 => Hir::U128,
        Type::U256 => Hir::U256,
        Type::Felt => Hir::Felt,
        Type::Never => Hir::Never,
        Type::Ptr { pointee, .. } => {
            Hir::Ptr(Arc::new(midenc_hir_type::PointerType::new(outside(pointee))))
        },
        Type::Array { elem, len } => {
            Hir::Array(Arc::new(midenc_hir_type::ArrayType::new(outside(elem), *len)))
        },
        Type::Struct(layout) => Hir::Struct(Arc::new(
            midenc_hir_type::StructType::new_with_repr(
                match layout.repr {
                    TypeRepr::Default => midenc_hir_type::TypeRepr::Default,
                    TypeRepr::Align(n) => midenc_hir_type::TypeRepr::align(n),
                    TypeRepr::Packed(n) => midenc_hir_type::TypeRepr::packed(n),
                    TypeRepr::Transparent => midenc_hir_type::TypeRepr::Transparent,
                    TypeRepr::BigEndian => midenc_hir_type::TypeRepr::BigEndian,
                },
                layout.fields.iter().map(|f| outside(&f.ty)).collect::<Vec<_>>(),
            ),
        )),
        _ => panic!("not used here"),
    }
}

fn sample_types() -> Vec<Type> {
    let pair = StructLayout::from_parts(
        None,
        TypeRepr::Default,
        named(vec![Type::U8, Type::U128]),
    )
    .unwrap();
    let packed = StructLayout::from_parts(
        None,
        TypeRepr::Packed(1),
        named(vec![Type::Felt, Type::U8, Type::U32]),
    )
    .unwrap();
    let aligned =
        StructLayout::from_parts(None, TypeRepr::Align(32), named(vec![Type::U8])).unwrap();
    vec![
        Type::I1,
        Type::U8,
        Type::I16,
        Type::U32,
        Type::U64,
        Type::U128,
        Type::U256,
        Type::Felt,
        Type::Never,
        Type::Ptr { addrspace: AddressSpace::Byte, pointee: Box::new(Type::U8) },
        Type::Array { elem: Box::new(Type::U8), len: 0 },
        Type::Array { elem: Box::new(Type::I16), len: 1 },
        Type::Array { elem: Box::new(Type::I1), len: 5 },
        Type::Array { elem: Box::new(Type::Struct(Box::new(packed.copy()))), len: 3 },
        Type::Struct(Box::new(pair)),
        Type::Struct(Box::new(packed)),
        Type::Struct(Box::new(aligned)),
    ]
}

#[test]
fn sizes_and_alignments_are_those_of_the_compiler() {
    for ty in sample_types() {
        let hir = outside(&ty);
        assert_eq!(ty.size_in_bits(), Some(hir.size_in_bits() as u64));
        assert_eq!(ty.size_in_bytes(), Some(hir.size_in_bytes() as u64));
        assert_eq!(ty.min_alignment(), hir.min_alignment() as u64);
        assert_eq!(ty.is_integer(), hir.is_integer());
    }
}

#[test]
fn layouts_are_those_of_the_compiler() {
    let reprs = [
        (TypeRepr::Default, midenc_hir_type::TypeRepr::Default),
        (TypeRepr::BigEndian, midenc_hir_type::TypeRepr::BigEndian),
        (TypeRepr::Align(8), midenc_hir_type::TypeRepr::align(8)),
        (TypeRepr::Packed(2), midenc_hir_type::TypeRepr::packed(2)),
    ];
    for (repr, hir_repr) in reprs {
        for first in sample_types() {
            for second in sample_types() {
                let fields = vec![first.copy(), Type::U8, second];
                let expected = midenc_hir_type::StructType::new_with_repr(
                    hir_repr,
                    fields.iter().map(outside).collect::<Vec<_>>(),
                );
                let layout = StructLayout::from_parts(None, repr, named(fields)).unwrap();
                assert_eq!(places(&layout), reference_places(&expected));
            }
        }
    }
    let transparent = StructLayout::from_parts(
        None,
        TypeRepr::Transparent,
        named(vec![Type::Never, Type::U64, Type::Never]),
    )
    .unwrap();
    let expected = midenc_hir_type::StructType::new_with_repr(
        midenc_hir_type::TypeRepr::Transparent,
        [
            midenc_hir_type::Type::Never,
            midenc_hir_type::Type::U64,
            midenc_hir_type::Type::Never,
        ],
    );
    assert_eq!(places(&transparent), reference_places(&expected));
}

#[test]
fn layouts_that_the_rules_refuse() {
    let two = named(vec![Type::U8, Type::U8]);
    assert!(StructLayout::from_parts(None, TypeRepr::Transparent, two).is_none());
    let odd = named(vec![Type::U8]);
    assert!(StructLayout::from_parts(None, TypeRepr::Align(3), odd).is_none());
    let list = named(vec![Type::List { elem: Box::new(Type::U8), elem_text: "u8".to_string() }]);
    assert!(StructLayout::from_parts(None, TypeRepr::Default, list).is_none());
    let huge = named(vec![Type::Array { elem: Box::new(Type::U8), len: 1 << 33 }]);
    assert!(StructLayout::from_parts(None, TypeRepr::Default, huge).is_none());
    let many = named((0..257).map(|_| Type::U8).collect());
    assert!(StructLayout::from_parts(None, TypeRepr::Default, many).is_none());
    let most = named((0..256).map(|_| Type::U8).collect());
    assert_eq!(StructLayout::from_parts(None, TypeRepr::Default, most).unwrap().size, 256);
}

// WRITING TYPES DOWN
// ================================================================================================

#[test]
fn types_are_written_with_numbered_fields_and_limbs() {
    let layout = StructLayout::from_parts(
        Some("Pair".to_string()),
        TypeRepr::Packed(1),
        named(vec![Type::U64, Type::Felt]),
    )
    .unwrap();
    let TypeExpr::Struct(ty) = TypeExpr::from_type(&Type::Struct(Box::new(layout))) else {
        panic!("expected a structure");
    };
    assert!(ty.name.is_none());
    assert_eq!(ty.repr, TypeRepr::Default);
    assert_eq!(ty.fields[0].name, "field0");
    assert_eq!(ty.fields[1].name, "field1");
    let TypeExpr::Array(limbs) = &ty.fields[0].ty else { panic!("expected limbs") };
    assert_eq!(limbs.arity, 2);
    assert!(matches!(*limbs.elem, TypeExpr::Primitive(_, Type::U32)));
    let TypeExpr::Array(limbs) = TypeExpr::from_type(&Type::I128) else {
        panic!("expected limbs")
    };
    assert_eq!(limbs.arity, 4);
    let list = Type::List { elem: Box::new(Type::U8), elem_text: "u8".to_string() };
    let TypeExpr::Ptr(ptr) = TypeExpr::from_type(&list) else { panic!("expected a pointer") };
    assert_eq!(ptr.address_space(), AddressSpace::Byte);
    let function = Type::Function(Box::new(Signature {
        cc: CallConv::Fast,
        params: vec![],
        results: vec![],
    }));
    let TypeExpr::Ptr(ptr) = TypeExpr::from_type(&function) else {
        panic!("expected a pointer")
    };
    assert_eq!(ptr.address_space(), AddressSpace::Element);
    assert!(matches!(*ptr.pointee, TypeExpr::Primitive(_, Type::Felt)));
}

#[test]
fn only_structures_are_named() {
    let mut ty = TypeExpr::Struct(StructType::new(None, vec![]));
    ty.set_name("Foo".to_string());
    let TypeExpr::Struct(named) = ty else { panic!("expected a structure") };
    assert_eq!(named.name.as_deref(), Some("Foo"));
    let mut ty = primitive(Type::U8);
    ty.set_name("Foo".to_string());
    assert!(matches!(ty, TypeExpr::Primitive(_, Type::U8)));
}

// DECLARATIONS
// ================================================================================================

fn ident(name: &str) -> Ident {
    Ident { span: SourceSpan { source: 1, start: 2, end: 3 }, name: name.to_string() }
}

fn variant(value: u64) -> Variant {
    Variant::new(ident("V"), ConstantExpr::Int(span(), value), None)
}

#[test]
fn discriminants_are_values_of_their_type() {
    let modulus = 0xffff_ffff_0000_0001u64;
    let cases = [
        (Type::I1, 1),
        (Type::U8, 0xff),
        (Type::I8, 0xff),
        (Type::U16, 0xffff),
        (Type::U32, 0xffff_ffff),
        (Type::I32, 0xffff_ffff),
        (Type::Felt, modulus - 1),
        (Type::U64, modulus - 1),
        (Type::I64, modulus - 1),
    ];
    for (ty, max) in cases {
        assert_eq!(variant(0).assert_instance_of(&ty), Ok(()));
        assert_eq!(variant(max).assert_instance_of(&ty), Ok(()));
        assert_eq!(
            variant(max + 1).assert_instance_of(&ty),
            Err(SemanticAnalysisError::InvalidEnumDiscriminant { span: span(), repr: ty.copy() }),
        );
    }
    for ty in [Type::U128, Type::U256, Type::F64, Type::Never] {
        assert!(matches!(
            variant(0).assert_instance_of(&ty),
            Err(SemanticAnalysisError::InvalidEnumRepr { .. })
        ));
    }
    let unfolded = Variant::new(
        ident("V"),
        ConstantExpr::Unfolded(span(), "A + 1".to_string()),
        None,
    );
    assert!(matches!(
        unfolded.assert_instance_of(&Type::U8),
        Err(SemanticAnalysisError::InvalidEnumDiscriminant { .. })
    ));
}

#[test]
fn enumerations_are_names_for_integers() {
    let plain = EnumType::new(Visibility::Public, ident("E"), Type::U8, vec![variant(0)]);
    assert!(plain.is_c_like());
    assert!(!EnumType::new(Visibility::Public, ident("E"), Type::U8, vec![]).is_c_like());
    let payload = Variant::new(
        ident("V"),
        ConstantExpr::Int(span(), 0),
        Some(primitive(Type::Felt)),
    );
    let tagged =
        EnumType::new(Visibility::Private, ident("E"), Type::U8, vec![variant(0), payload]);
    assert!(!tagged.is_c_like());
    let decl = TypeDecl::Enum(tagged);
    assert_eq!(decl.visibility(), Visibility::Private);
    assert_eq!(decl.name().name, "E");
    assert!(matches!(decl.ty(), TypeExpr::Primitive(_, Type::U8)));
    let (alias, variants) = plain.with_docs(Some("docs".to_string())).into_parts();
    assert_eq!(alias.docs().as_deref(), Some("docs"));
    assert_eq!(variants.len(), 1);
    let decl = TypeDecl::Alias(TypeAlias::new(
        Visibility::Public,
        ident("A"),
        primitive(Type::U16),
    ));
    assert_eq!(decl.span(), SourceSpan { source: 1, start: 2, end: 3 });
    assert!(matches!(decl.ty(), TypeExpr::Primitive(_, Type::U16)));
}

// DEBUG TYPES
// ================================================================================================

fn structure(name: &str, fields: Vec<(&str, Type)>) -> Type {
    let fields = fields
        .into_iter()
        .map(|(name, ty)| NamedType { name: Some(name.to_string()), ty })
        .collect();
    Type::Struct(Box::new(
        StructLayout::from_parts(Some(name.to_string()), TypeRepr::Default, fields).unwrap(),
    ))
}

fn assert_struct_debug_type(
    section: &DebugTypesSection,
    type_idx: u32,
    expected_name: &str,
    expected_fields: &[(&str, &str)],
) {
    let Some(DebugTypeInfo::Struct { name_idx, fields, .. }) = section.get_type(type_idx) else {
        panic!("expected struct debug type");
    };
    assert_eq!(section.get_string(*name_idx).unwrap(), expected_name);
    assert_eq!(fields.len(), expected_fields.len());
    for (field, (expected_name, expected_type_name)) in fields.iter().zip(expected_fields) {
        assert_eq!(section.get_string(field.name_idx).unwrap(), expected_name);
        let Some(DebugTypeInfo::Struct { name_idx, .. }) = section.get_type(field.type_idx) else {
            panic!("expected struct field type");
        };
        assert_eq!(section.get_string(*name_idx).unwrap(), expected_type_name);
    }
}

#[test]
fn function_debug_types_preserve_resolved_struct_metadata() {
    let wrapper = || structure("felt-wrapper", vec![("inner", Type::Felt)]);
    let account_id =
        || structure("account-id", vec![("prefix", wrapper()), ("suffix", wrapper())]);
    let function = Type::Function(Box::new(Signature {
        cc: CallConv::ComponentModel,
        params: vec![account_id()],
        results: vec![account_id()],
    }));
    let mut section = DebugTypesSection::new();
    let idx = section
        .register_debug_type(Some("take-account-id".to_string()), None, &function)
        .unwrap();
    let Some(DebugTypeInfo::Function {
        return_type_idx: Some(return_type_idx),
        param_type_indices,
    }) = section.get_type(idx)
    else {
        panic!("expected function debug type");
    };
    assert_eq!(param_type_indices.len(), 1);
    let fields = [("prefix", "felt-wrapper"), ("suffix", "felt-wrapper")];
    assert_struct_debug_type(&section, param_type_indices[0], "account-id", &fields);
    assert_struct_debug_type(&section, *return_type_idx, "account-id", &fields);
}

#[test]
fn declared_names_are_preferred() {
    let ty = structure("Own", vec![("x", Type::Felt), ("y", structure("Inner", vec![]))]);
    let declared = TypeExpr::Struct(StructType::new(
        Some("Declared".to_string()),
        vec![
            field("first", primitive(Type::Felt)),
            field("second", TypeExpr::Ref(span(), path(&["m", "Named"]))),
        ],
    ));
    let mut section = DebugTypesSection::new();
    let idx = section.register_debug_type(None, Some(&declared), &ty).unwrap();
    let Some(DebugTypeInfo::Struct { name_idx, size, fields }) = section.get_type(idx) else {
        panic!("expected struct debug type");
    };
    assert_eq!(section.get_string(*name_idx).unwrap(), "Own");
    assert_eq!(*size, 4);
    assert_eq!(section.get_string(fields[0].name_idx).unwrap(), "first");
    assert_eq!(section.get_string(fields[1].name_idx).unwrap(), "second");
    let Some(DebugTypeInfo::Struct { name_idx, .. }) = section.get_type(fields[1].type_idx) else {
        panic!("expected struct debug type");
    };
    assert_eq!(section.get_string(*name_idx).unwrap(), "m::Named");
}

#[test]
fn lists_are_a_pointer_and_a_length() {
    let list = Type::List { elem: Box::new(Type::U8), elem_text: "u8".to_string() };
    let mut section = DebugTypesSection::new();
    let idx = section.register_debug_type(None, None, &list).unwrap();
    let Some(DebugTypeInfo::Struct { name_idx, size: 8, fields }) = section.get_type(idx) else {
        panic!("expected struct debug type");
    };
    assert_eq!(section.get_string(*name_idx).unwrap(), "list<u8>");
    let names: Vec<&String> =
        fields.iter().map(|f| section.get_string(f.name_idx).unwrap()).collect();
    assert_eq!(names, ["ptr", "len"]);
    let DebugFieldInfo { type_idx, offset, .. } = fields[1];
    assert_eq!(offset, 4);
    assert!(matches!(
        section.get_type(type_idx),
        Some(DebugTypeInfo::Primitive(DebugPrimitiveType::U32))
    ));
}

#[test]
fn several_results_are_a_structure() {
    let function = Type::Function(Box::new(Signature {
        cc: CallConv::Fast,
        params: vec![],
        results: vec![Type::U8, Type::Felt],
    }));
    let mut section = DebugTypesSection::new();
    let idx = section.register_debug_type(None, None, &function).unwrap();
    let Some(DebugTypeInfo::Function { return_type_idx: Some(idx), .. }) = section.get_type(idx)
    else {
        panic!("expected function debug type");
    };
    let Some(DebugTypeInfo::Struct { name_idx, size: 8, fields }) = section.get_type(*idx) else {
        panic!("expected struct debug type");
    };
    assert_eq!(section.get_string(*name_idx).unwrap(), "<anon>");
    assert_eq!(section.get_string(fields[0].name_idx).unwrap(), "0");
    assert_eq!(section.get_string(fields[1].name_idx).unwrap(), "1");
    assert_eq!(fields[1].offset, 4);
}

#[test]
fn types_that_rows_cannot_describe() {
    let mut section = DebugTypesSection::new();
    let huge = Type::Array { elem: Box::new(Type::U8), len: 1 << 32 };
    assert_eq!(
        section.register_debug_type(None, None, &huge),
        Err(DebugTypeError::ArrayTooLarge),
    );
    let function = Type::Function(Box::new(Signature {
        cc: CallConv::Fast,
        params: vec![],
        results: vec![huge, Type::U8],
    }));
    assert_eq!(
        section.register_debug_type(None, None, &function),
        Err(DebugTypeError::ReturnTypeTooBig),
    );
    let tagged = Type::Enum(Box::new(EnumLayout {
        name: "E".to_string(),
        discriminant: Type::U8,
        is_c_like: false,
        size: 8,
        align: 4,
    }));
    let idx = section.register_debug_type(None, None, &tagged).unwrap();
    assert!(matches!(section.get_type(idx), Some(DebugTypeInfo::Unknown)));
    let plain = Type::Enum(Box::new(EnumLayout {
        name: "E".to_string(),
        discriminant: Type::U8,
        is_c_like: true,
        size: 1,
        align: 1,
    }));
    let idx = section.register_debug_type(None, None, &plain).unwrap();
    assert!(matches!(
        section.get_type(idx),
        Some(DebugTypeInfo::Primitive(DebugPrimitiveType::U8))
    ));
}

fn pair(first: &str, ty: Type, at: SourceSpan) -> TypeExpr {
    let fields = vec![
        StructField { span: at, name: first.to_string(), ty: TypeExpr::Primitive(at, ty) },
        field("b", TypeExpr::Ptr(PointerType::new(TypeExpr::Ref(at, path(&["m", "x"]))))),
    ];
    TypeExpr::Struct(StructType::new(None, fields))
}

#[test]
fn expressions_are_compared_without_their_places() {
    let elsewhere = SourceSpan { source: 3, start: 7, end: 9 };
    assert!(pair("a", Type::U8, span()).same_as(&pair("a", Type::U8, elsewhere)));
    assert!(!pair("a", Type::U8, span()).same_as(&pair("c", Type::U8, span())));
    assert!(!pair("a", Type::U8, span()).same_as(&pair("a", Type::U16, span())));

    let given = |addrspace: Option<AddressSpace>| {
        TypeExpr::Ptr(PointerType {
            span: span(),
            pointee: Box::new(primitive(Type::Felt)),
            addrspace,
        })
    };
    assert!(given(None).same_as(&given(Some(AddressSpace::Element))));
    assert!(!given(None).same_as(&given(Some(AddressSpace::Byte))));

    let array = |arity: usize| TypeExpr::Array(ArrayType::new(primitive(Type::U8), arity));
    assert!(array(4).same_as(&array(4)));
    assert!(!array(4).same_as(&array(5)));
    assert!(!array(4).same_as(&primitive(Type::U8)));
}

#[test]
fn declarations_are_compared_with_their_docs() {
    let ident = || Ident { span: span(), name: "color".to_string() };
    let alias = || TypeAlias::new(Visibility::Public, ident(), primitive(Type::U8));
    assert!(alias().same_as(&alias()));
    assert!(!alias().same_as(&alias().with_docs(Some("a color".to_string()))));

    let variant = |name: &str, value: u64| Variant {
        span: span(),
        docs: None,
        name: Ident { span: span(), name: name.to_string() },
        value_ty: None,
        discriminant: ConstantExpr::Int(span(), value),
    };
    let listed = |value: u64| {
        EnumType::new(Visibility::Public, ident(), Type::U8, vec![variant("red", value)])
    };
    assert!(listed(1).same_as(&listed(1)));
    assert!(!listed(1).same_as(&listed(2)));
    let mut more = listed(1);
    more.variants_mut().push(variant("green", 2));
    assert_eq!(more.variants().len(), 2);
    assert!(!more.same_as(&listed(1)));
    assert!(!TypeDecl::Enum(listed(1)).same_as(&TypeDecl::Alias(alias())));
}

#[test]
fn resolved_types_are_compared_deeply() {
    let signature = |result: Type| {
        Type::Function(Box::new(Signature {
            cc: CallConv::Fast,
            params: vec![Type::U8, Type::Array { elem: Box::new(Type::Felt), len: 4 }],
            results: vec![result],
        }))
    };
    assert!(signature(Type::U8).same_as(&signature(Type::U8)));
    assert!(!signature(Type::U8).same_as(&signature(Type::I8)));
    assert!(!signature(Type::U8).same_as(&Type::Never));
}

/// Leads every path to the next one, and the last to an item.
struct FollowingResolver {
    asked: Vec<(SourceSpan, String)>,
}

impl TypeResolver<SymbolResolutionError> for FollowingResolver {
    fn resolve_local_failed(&self, err: SymbolResolutionError) -> SymbolResolutionError {
        err
    }

    fn get_type(
        &mut self,
        context: SourceSpan,
        gid: GlobalItemIndex,
    ) -> Result<Type, SymbolResolutionError> {
        self.asked.push((context, format!("{}:{}", gid.module, gid.index)));
        Ok(Type::U32)
    }

    fn get_local_type(
        &mut self,
        context: SourceSpan,
        id: u32,
    ) -> Result<Option<Type>, SymbolResolutionError> {
        self.asked.push((context, format!("local {id}")));
        Ok(Some(Type::U8))
    }

    fn resolve_type_ref(
        &mut self,
        span: SourceSpan,
        path: &Path,
    ) -> Result<SymbolResolution, SymbolResolutionError> {
        let text = path.to_string();
        self.asked.push((span, text.clone()));
        Ok(match text.as_str() {
            "a" => SymbolResolution::External(place(2), self::path(&["b"])),
            "b" => SymbolResolution::Exact(GlobalItemIndex { module: 3, index: 4 }),
            "self" => SymbolResolution::External(place(5), self::path(&["self"])),
            "module" => SymbolResolution::Module(self::path(&["module"])),
            _ => SymbolResolution::Local(9),
        })
    }
}

fn place(start: u32) -> SourceSpan {
    SourceSpan { source: 1, start, end: start + 1 }
}

#[test]
fn paths_are_followed_at_the_places_where_they_are_written() {
    let mut resolver = FollowingResolver { asked: vec![] };
    let expr = TypeExpr::Struct(StructType::new(
        None,
        vec![
            field("x", TypeExpr::Ref(place(1), path(&["a"]))),
            field("y", TypeExpr::Ref(place(7), path(&["c"]))),
        ],
    ));
    let Ok(Some(Type::Struct(ty))) = expr.resolve_type(&mut resolver) else {
        panic!("expected a struct");
    };
    assert_eq!(ty.fields[0].ty, Type::U32);
    assert_eq!(ty.fields[1].ty, Type::U8);
    let expected = [
        (place(1), "a".to_string()),
        (place(2), "b".to_string()),
        (place(2), "3:4".to_string()),
        (place(7), "c".to_string()),
        (place(7), "local 9".to_string()),
    ];
    assert_eq!(resolver.asked, expected);

    resolver.asked.clear();
    let undefined = TypeExpr::Ref(place(1), path(&["self"]));
    assert!(matches!(undefined.resolve_type(&mut resolver), Ok(None)));
    let no_type = TypeExpr::Ref(place(8), path(&["module"]));
    assert_eq!(
        no_type.resolve_type(&mut resolver),
        Err(SymbolResolutionError::InvalidSymbolType { span: place(8) })
    );
    resolver.asked.clear();
    assert!(primitive(Type::Felt).resolve_type(&mut resolver).is_ok());
    assert!(resolver.asked.is_empty());
    assert!(primitive(Type::Felt).resolve_type_with_depth(&mut resolver, usize::MAX).is_err());
}

#[test]
fn declared_elements_name_the_fields_of_array_elements() {
    let mut section = DebugTypesSection::new();
    let declared = TypeExpr::Array(ArrayType::new(
        TypeExpr::Struct(StructType::new(None, vec![field("x", primitive(Type::Felt))])),
        2,
    ));
    let fields = vec![NamedType { name: None, ty: Type::Felt }];
    let layout = StructLayout::from_parts(None, TypeRepr::Default, fields).unwrap();
    let ty = Type::Array { elem: Box::new(Type::Struct(Box::new(layout))), len: 2 };
    let array = section.register_debug_type(None, Some(&declared), &ty).unwrap();
    let DebugTypeInfo::Array { element_type_idx, count: Some(2) } = section.types[array as usize]
    else {
        panic!("expected an array");
    };
    let DebugTypeInfo::Struct { fields, .. } = &section.types[element_type_idx as usize] else {
        panic!("expected a struct");
    };
    assert_eq!(fields.len(), 1);
    assert_eq!(section.get_string(fields[0].name_idx).unwrap(), "x");
}
