//! Compiling, exporting and describing the procedures of modules.

use miden_mast::assembler::{
    ConstantValue,
    AssemblyError, Import, ItemInfo, Module, ModuleKind, ProcedureSource, SubmoduleDecl, Symbol,
    SymbolItem,
};
use miden_mast::batch::batch_operations;
use miden_mast::body::{
    Assembler, BlockPiece, CompileError, CompiledProcedure, Instruction, Op, Target,
};
use miden_mast::builder::{AssemblyOp, MastForestBuilder};
use miden_mast::debug_info::{DebugSourceAsmOp, DebugSourceInlineCall};
use miden_mast::debug_sections::DebugInfoSections;
use miden_mast::debug_types::DebugTypeInfo;
use miden_mast::debug_var::FileLineCol;
use miden_mast::exports::PendingPackageExport;
use miden_mast::finalizer::MastForestBuilderError;
use miden_mast::felt::{Felt, Word};
use miden_mast::forest::{AdviceMap, MastForest};
use miden_mast::hasher::merge_in_domain;
use miden_mast::merge::BlockRows;
use miden_mast::node::{digest_of_batches, CALL_DOMAIN, JOIN_DOMAIN, LOOP_DOMAIN, SPLIT_DOMAIN};
use miden_mast::operation::Operation;
use miden_mast::package_modules::package_modules;
use miden_mast::path::{GlobalItemIndex, Path, SourceSpan};
use miden_mast::pending::{MastNodeRef, MastNodeUse, SourceNodeRef};
use miden_mast::procedure::{
    AssemblerError, Attribute, AttributeSet, MetaExpr, Procedure, ProcedureContext,
    MAX_PROC_LOCALS,
};
use miden_mast::procedures::ProcedureError;
use miden_mast::registry::DebugTables;
use miden_mast::static_metadata::PackageDebugInfo;
use miden_mast::product::{
    finish_exports, ProductError, PackageExport, PackageLink, PackageLinkError, TargetType,
};
use miden_mast::static_import::{LibraryIdentity, LinkHint, StaticLibraries, StaticRoots};
use miden_mast::trimmer::{FsPath, SourcePathTrimmer};
use miden_mast::type_decl::{Ident, TypeAlias, TypeDecl, Visibility};
use miden_mast::type_expr::{FunctionType, TypeExpr};
use miden_mast::types::{CallConv, Signature, Type};
use miden_mast::visibility::{ExportFault, TypeChecker, TypeReference};

fn felt(value: u64) -> Felt {
    Felt::new_unchecked(value)
}

fn test_word(value: u64) -> Word {
    Word::new([felt(value), felt(0), felt(0), felt(0)])
}

fn at(start: u32) -> SourceSpan {
    SourceSpan { source: 3, start, end: start + 1 }
}

fn path(components: &[&str]) -> Path {
    Path {
        is_absolute: true,
        components: components.iter().map(|c| c.to_string()).collect(),
    }
}

fn no_attributes() -> AttributeSet {
    AttributeSet::new(vec![])
}

/// A builder with a name.
fn new_builder() -> MastForestBuilder {
    let mut builder = MastForestBuilder::new(AdviceMap::new());
    assert_eq!(builder.registry.tables.add_string("::m".to_string()), Ok(0));
    builder
}

fn no_hint() -> LinkHint {
    LinkHint { commitment: None, root: None, source: None }
}

fn assembler() -> Assembler {
    Assembler {
        libraries: StaticLibraries {
            merged: MastForest::new(),
            roots: StaticRoots { libraries: vec![], root_maps: vec![] },
            forests: vec![],
            debug_infos: vec![],
        },
        kernel: vec![],
        max_nesting: 8,
        max_repeat_count: 100,
    }
}

fn asm_op() -> AssemblyOp {
    AssemblyOp { location_idx: None, context_name_idx: 0, op_name_idx: 0, num_cycles: 0 }
}

fn inst(op: Operation) -> Op {
    Op::Inst(Instruction::Basic(BlockPiece { ops: vec![op], rows: BlockRows::new() }))
}

fn digest(ops: Vec<Operation>) -> Word {
    digest_of_batches(&batch_operations(&ops))
}

fn compile(assembler: &Assembler, body: Vec<Op>) -> Result<Word, CompileError> {
    let mut builder = new_builder();
    let u = assembler
        .compile_body(&mut builder, &body, vec![], vec![], &vec![], asm_op(), 0)?;
    Ok(builder.mast_root(u.node_ref))
}

// PROCEDURES
// ================================================================================================

fn procedure_with_attributes(items: Vec<Attribute>) -> Procedure {
    Procedure {
        span: SourceSpan::unknown(),
        path: path(&["test", "module", "foo"]),
        signature: None,
        attributes: AttributeSet::new(items),
        visibility: Visibility::Private,
        is_syscall: false,
        num_locals: 0,
        mast_root: Word::default(),
        body_node_ref: MastNodeRef(0),
        body_source_ref: SourceNodeRef(0),
    }
}

#[test]
fn source_name_fully_qualified_is_none_without_attribute() {
    let procedure = procedure_with_attributes(vec![]);
    assert!(matches!(procedure.source_name_fully_qualified(), Ok(None)));
}

#[test]
fn source_name_fully_qualified_returns_quoted_string_joined_to_module_path() {
    let procedure = procedure_with_attributes(vec![Attribute::List {
        span: at(0),
        name: "source_name".to_string(),
        items: vec![MetaExpr::Text("bar".to_string())],
    }]);
    let Ok(Some(found)) = procedure.source_name_fully_qualified() else {
        panic!("expected a name");
    };
    assert_eq!(found.to_string(), "::test::module::bar");
}

#[test]
fn malformed_source_name_attributes_are_rejected() {
    let name = || "source_name".to_string();
    let malformed = vec![
        Attribute::Marker { span: at(0), name: name() },
        Attribute::List {
            span: at(0),
            name: name(),
            items: vec![MetaExpr::Ident("unquoted".to_string())],
        },
        Attribute::List {
            span: at(0),
            name: name(),
            items: vec![MetaExpr::Text("one".to_string()), MetaExpr::Text("two".to_string())],
        },
        Attribute::KeyValue {
            span: at(0),
            name: name(),
            items: vec![("value".to_string(), MetaExpr::Text("named".to_string()))],
        },
    ];
    for attribute in malformed {
        let procedure = procedure_with_attributes(vec![attribute]);
        let Err(AssemblerError::InvalidSourceNameAttribute { span }) =
            procedure.source_name_fully_qualified()
        else {
            panic!("expected an error");
        };
        assert_eq!(span.source, 3);
    }
}

#[test]
fn locals_are_limited() {
    let gid = GlobalItemIndex { module: 0, index: 0 };
    let context = |kernel: bool, visibility: Visibility| {
        ProcedureContext::new(gid, false, path(&["m", "f"]), visibility, None, kernel)
            .with_span(at(5))
    };
    let Ok(most) = context(false, Visibility::Public).with_num_locals(MAX_PROC_LOCALS) else {
        panic!("expected a context");
    };
    assert_eq!(most.num_locals(), 65532);
    assert!(matches!(
        context(false, Visibility::Public).with_num_locals(65533),
        Err(AssemblerError::TooManyProcedureLocals { span, max_locals: 65532, num_locals: 65533 })
            if span == at(5)
    ));
    let body = MastNodeUse::new(MastNodeRef(1), SourceNodeRef(2));
    let root = test_word(4);
    assert!(context(true, Visibility::Public).into_procedure(root, body).is_syscall());
    assert!(!context(true, Visibility::Private).into_procedure(root, body).is_syscall());
    let procedure = context(false, Visibility::Public).into_procedure(root, body);
    assert!(!procedure.is_syscall());
    assert_eq!(procedure.body_node_use(), body);
    assert_eq!(procedure.mast_root(), root);
    assert_eq!(procedure.module().to_string(), "::m");
}

fn body_of(builder: &mut MastForestBuilder, op: Operation) -> MastNodeUse {
    builder.ensure_block_use(&vec![op], vec![], vec![], vec![], vec![]).unwrap()
}

fn procedure(builder: &MastForestBuilder, name: &str, body: MastNodeUse, locals: u32) -> Procedure {
    Procedure {
        path: path(&["m", name]),
        num_locals: locals,
        mast_root: builder.mast_root(body.node_ref),
        body_node_ref: body.node_ref,
        body_source_ref: body.source_ref,
        ..procedure_with_attributes(vec![])
    }
}

#[test]
fn procedures_are_inserted_once() {
    let mut builder = new_builder();
    let body = body_of(&mut builder, Operation::Add);
    let other = body_of(&mut builder, Operation::Mul);
    let gid = GlobalItemIndex { module: 0, index: 0 };
    let place = FileLineCol { uri: "file:///m.masm".to_string(), line: 4, column: 2 };
    let first = procedure(&builder, "f", body, 0);
    assert_eq!(builder.insert_procedure(gid, first, Some(place)), Ok(()));
    let stored = builder.get_procedure(gid).unwrap();
    let source = stored.body_source_ref();
    assert_ne!(source, body.source_ref);
    assert_eq!(builder.graph.roots, vec![source.0]);
    let frames = &builder.graph.nodes[source.0 as usize].call_frames;
    assert_eq!(frames.len(), 1);
    assert_eq!((frames[0].op_start, frames[0].op_end, frames[0].function_idx), (0, 1, 0));
    let function = builder.graph.functions[0];
    assert_eq!(function.source_node, Some(source.0));
    assert_eq!((function.line, function.column), (4, 2));
    assert_eq!(
        builder.registry.tables.section.get_string(function.name_idx).unwrap(),
        "::m::f",
    );

    let count = builder.graph.nodes.len();
    let again = procedure(&builder, "f", body, 0);
    assert_eq!(builder.insert_procedure(gid, again, None), Ok(()));
    assert_eq!(builder.graph.nodes.len(), count);
    let changed = procedure(&builder, "f", other, 0);
    assert_eq!(
        builder.insert_procedure(gid, changed, None),
        Err(ProcedureError::DifferentRoots),
    );
}

#[test]
fn procedures_may_share_code_but_not_with_other_locals() {
    let mut builder = new_builder();
    let body = body_of(&mut builder, Operation::Add);
    let gid = |index: u32| GlobalItemIndex { module: 0, index };
    let first = procedure(&builder, "first", body, 4);
    assert_eq!(builder.insert_procedure(gid(0), first, None), Ok(()));
    let conflicting = procedure(&builder, "second", body, 8);
    assert_eq!(
        builder.insert_procedure(gid(1), conflicting, None),
        Err(ProcedureError::ConflictingLocals),
    );
    let alias = procedure(&builder, "alias", body, 0);
    assert_eq!(builder.insert_procedure(gid(2), alias, None), Ok(()));
    let mast_root = builder.mast_root(body.node_ref);
    let found = builder.find_procedure_by_mast_root(&mast_root).unwrap();
    assert_eq!(found.path().to_string(), "::m::first");
    assert_eq!(builder.get_procedure(gid(2)).unwrap().path().to_string(), "::m::alias");
    assert!(builder.get_procedure(gid(1)).is_none());
}

#[test]
fn source_names_are_shown_and_paths_linked() {
    let mut builder = new_builder();
    let body = body_of(&mut builder, Operation::Add);
    let mut named = procedure(&builder, "f", body, 0);
    named.attributes = AttributeSet::new(vec![Attribute::List {
        span: at(0),
        name: "source_name".to_string(),
        items: vec![MetaExpr::Text("shown".to_string())],
    }]);
    named.signature = Some(Signature {
        cc: CallConv::Fast,
        params: vec![Type::Felt],
        results: vec![],
    });
    let place = FileLineCol { uri: "file:///m.masm".to_string(), line: 1, column: 1 };
    let gid = GlobalItemIndex { module: 0, index: 0 };
    assert_eq!(builder.insert_procedure(gid, named, Some(place)), Ok(()));
    let section = &builder.registry.tables.section;
    let function = builder.graph.functions[0];
    assert_eq!(section.get_string(function.name_idx).unwrap(), "::m::shown");
    assert_eq!(section.get_string(function.linkage_name_idx.unwrap()).unwrap(), "::m::f");
    assert!(matches!(
        section.get_type(function.type_idx.unwrap()),
        Some(DebugTypeInfo::Function { param_type_indices, .. }) if param_type_indices.len() == 1
    ));
    let bad = Procedure {
        attributes: AttributeSet::new(vec![Attribute::Marker {
            span: at(9),
            name: "source_name".to_string(),
        }]),
        ..procedure(&builder, "g", body, 0)
    };
    assert_eq!(
        builder.insert_procedure(GlobalItemIndex { module: 0, index: 1 }, bad, None),
        Err(ProcedureError::SourceName(AssemblerError::InvalidSourceNameAttribute {
            span: at(9)
        })),
    );
}

#[test]
fn the_first_message_of_a_code_stays() {
    let package = |rows: &[(u64, &str)]| {
        let mut tables = DebugTables::new();
        for (code, text) in rows {
            tables.add_error_message(*code, text.to_string()).unwrap();
        }
        Some(PackageDebugInfo { nodes: vec![], roots: vec![], functions: vec![], tables })
    };
    let library = || LibraryIdentity::new(test_word(1));
    let libraries = StaticLibraries {
        merged: MastForest::new(),
        roots: StaticRoots {
            libraries: vec![library(), library(), library()],
            root_maps: vec![vec![], vec![], vec![]],
        },
        forests: vec![MastForest::new(), MastForest::new(), MastForest::new()],
        debug_infos: vec![
            package(&[(7, "first"), (8, "other")]),
            None,
            package(&[(7, "second")]),
        ],
    };
    let Ok(mut builder) = MastForestBuilder::new_with_static_libraries(&libraries) else {
        panic!("expected a builder");
    };
    assert!(builder.registry.tables.section.types.is_empty());
    assert!(builder.registry.tables.files.is_empty());
    assert!(builder.registry.imports.is_empty());
    builder.register_error(felt(8), "late".to_string()).unwrap();
    let tables = &builder.registry.tables;
    let shown: Vec<(u64, &String)> = tables
        .errors
        .iter()
        .map(|(code, name)| (*code, tables.section.get_string(*name).unwrap()))
        .collect();
    assert_eq!(shown, [(7, &"first".to_string()), (8, &"other".to_string())]);
}

#[test]
fn advice_maps_are_merged_or_left_alone() {
    let mut builder = new_builder();
    let mut first = AdviceMap::new();
    first.insert(test_word(1), vec![felt(10)]);
    first.insert(test_word(2), vec![felt(20)]);
    assert_eq!(builder.merge_advice_map(&first), Ok(()));
    let mut second = AdviceMap::new();
    second.insert(test_word(2), vec![felt(20)]);
    second.insert(test_word(3), vec![felt(30)]);
    assert_eq!(builder.merge_advice_map(&second), Ok(()));
    let mut third = AdviceMap::new();
    third.insert(test_word(3), vec![felt(31)]);
    third.insert(test_word(4), vec![felt(40)]);
    assert_eq!(builder.merge_advice_map(&third), Err(test_word(3)));
    let advice = &builder.registry.advice_map;
    assert_eq!(advice.len(), 3);
    assert_eq!(advice.get(&test_word(3)), Some(&vec![felt(30)]));
    assert_eq!(advice.get(&test_word(4)), None);
}

// BODIES
// ================================================================================================

#[test]
fn instructions_go_to_one_block() {
    let body = vec![inst(Operation::Add), inst(Operation::Mul)];
    assert_eq!(compile(&assembler(), body), Ok(digest(vec![Operation::Add, Operation::Mul])));
}

#[test]
fn an_empty_body_has_no_effect() {
    assert_eq!(compile(&assembler(), vec![]), Ok(digest(vec![Operation::Noop])));
}

#[test]
fn conditions_are_splits() {
    let body = vec![Op::If {
        span: at(0),
        asm_op: asm_op(),
        then_blk: vec![inst(Operation::Add)],
        else_blk: vec![],
    }];
    let expected = merge_in_domain(
        &digest(vec![Operation::Add]),
        &digest(vec![Operation::Noop]),
        SPLIT_DOMAIN,
    );
    assert_eq!(compile(&assembler(), body), Ok(expected));
}

#[test]
fn loops_test_their_condition_at_the_head_or_at_the_tail() {
    let zero = Word::default();
    let inner = merge_in_domain(&digest(vec![Operation::Add]), &zero, LOOP_DOMAIN);
    let at_tail = vec![Op::DoWhile {
        span: at(0),
        asm_op: asm_op(),
        body: vec![inst(Operation::Add)],
    }];
    assert_eq!(compile(&assembler(), at_tail), Ok(inner));
    let at_head =
        vec![Op::While { span: at(0), asm_op: asm_op(), body: vec![inst(Operation::Add)] }];
    let expected = merge_in_domain(&inner, &digest(vec![Operation::Noop]), SPLIT_DOMAIN);
    assert_eq!(compile(&assembler(), at_head), Ok(expected));
}

#[test]
fn repetitions_are_unrolled() {
    let repeat = |count: u32| Op::Repeat { span: at(7), count, body: vec![inst(Operation::Add)] };
    assert_eq!(
        compile(&assembler(), vec![repeat(3), inst(Operation::Mul)]),
        Ok(digest(vec![Operation::Add, Operation::Add, Operation::Add, Operation::Mul])),
    );
    for count in [0, 101] {
        assert_eq!(
            compile(&assembler(), vec![repeat(count)]),
            Err(CompileError::InvalidRepeatCount { span: at(7), count }),
        );
    }
}

#[test]
fn nesting_is_limited() {
    let nested = |depth: u32| {
        let mut body = vec![inst(Operation::Add)];
        for i in 0..depth {
            body = vec![Op::DoWhile { span: at(i), asm_op: asm_op(), body }];
        }
        body
    };
    assert!(compile(&assembler(), nested(8)).is_ok());
    assert_eq!(
        compile(&assembler(), nested(9)),
        Err(CompileError::ControlFlowNestingDepthExceeded { span: at(0), max_depth: 8 }),
    );
}

#[test]
fn rows_move_with_their_instructions() {
    let row = |name: u32| DebugSourceAsmOp {
        op_idx: 0,
        location_idx: None,
        context_name_idx: name,
        op_name_idx: name,
        num_cycles: 1,
    };
    let with_row = |op: Operation, name: u32| {
        let mut rows = BlockRows::new();
        rows.asm_ops.push(row(name));
        Op::Inst(Instruction::Basic(BlockPiece { ops: vec![op], rows }))
    };
    let mut builder = new_builder();
    let body = vec![with_row(Operation::Add, 1), with_row(Operation::Mul, 2)];
    let u = assembler()
        .compile_body(
            &mut builder,
            &body,
            vec![Operation::Noop],
            vec![Operation::Drop],
            &vec![],
            asm_op(),
            0,
        )
        .unwrap();
    let source = &builder.graph.nodes[u.source_ref.0 as usize];
    let places: Vec<(u32, u32)> =
        source.asm_ops.iter().map(|r| (r.op_idx, r.context_name_idx)).collect();
    assert_eq!(places, [(1, 1), (2, 2)]);
    assert_eq!(
        builder.mast_root(u.node_ref),
        digest(vec![Operation::Noop, Operation::Add, Operation::Mul, Operation::Drop]),
    );
}

#[test]
fn invocations_use_what_was_compiled_or_linked() {
    let mut builder = new_builder();
    let body = body_of(&mut builder, Operation::Add);
    let gid = GlobalItemIndex { module: 0, index: 0 };
    let callee = procedure(&builder, "f", body, 0);
    builder.insert_procedure(gid, callee, None).unwrap();
    let target = Target::Item { gid, compiled: None };
    let call = Op::Inst(Instruction::Call {
        span: at(0),
        target,
        is_syscall: false,
        asm_op: asm_op(),
    });
    let elsewhere =
        Op::Inst(Instruction::Exec { span: at(1), target: Target::Root(test_word(5)) });
    let u = assembler()
        .compile_body(
            &mut builder,
            &vec![call, elsewhere],
            vec![],
            vec![],
            &vec![],
            asm_op(),
            0,
        )
        .unwrap();
    let called =
        merge_in_domain(&digest(vec![Operation::Add]), &Word::default(), CALL_DOMAIN);
    assert_eq!(
        builder.mast_root(u.node_ref),
        merge_in_domain(&called, &test_word(5), JOIN_DOMAIN),
    );
    let missing = GlobalItemIndex { module: 9, index: 9 };
    let lost = Op::Inst(Instruction::Exec {
        span: at(2),
        target: Target::Item { gid: missing, compiled: None },
    });
    assert_eq!(
        compile(&assembler(), vec![lost]),
        Err(CompileError::MissingProcedure { gid: missing }),
    );
}

#[test]
fn kernel_calls_lead_to_the_kernel() {
    let syscall = |root: Word| {
        vec![Op::Inst(Instruction::Call {
            span: at(4),
            target: Target::Root(root),
            is_syscall: true,
            asm_op: asm_op(),
        })]
    };
    assert!(compile(&assembler(), syscall(test_word(5))).is_ok());
    let mut with_kernel = assembler();
    with_kernel.kernel = vec![test_word(6)];
    assert!(compile(&with_kernel, syscall(test_word(6))).is_ok());
    assert_eq!(
        compile(&with_kernel, syscall(test_word(5))),
        Err(CompileError::InvalidSysCallTarget { span: at(4), callee: test_word(5) }),
    );
    assert_eq!(
        with_kernel.link_package(TargetType::Kernel),
        Err(PackageLinkError::DuplicateKernel),
    );
    assert_eq!(assembler().link_package(TargetType::Kernel), Ok(PackageLink::Kernel));
    assert_eq!(assembler().link_package(TargetType::Library), Ok(PackageLink::Library));
    assert_eq!(
        assembler().link_package(TargetType::Executable),
        Err(PackageLinkError::Executable),
    );
}

#[test]
fn inlined_calls_decorate_what_follows() {
    let mut builder = new_builder();
    let body = body_of(&mut builder, Operation::Add);
    let gid = GlobalItemIndex { module: 0, index: 0 };
    let callee = procedure(&builder, "f", body, 0);
    builder.insert_procedure(gid, callee, None).unwrap();
    let exec =
        || Op::Inst(Instruction::Exec { span: at(0), target: Target::Item { gid, compiled: None } });
    let chain = vec![DebugSourceInlineCall { op_idx: 0, callee_idx: 0, loc_idx: 3 }];
    let u = assembler()
        .compile_body(
            &mut builder,
            &vec![Op::Inst(Instruction::Inline(chain.clone())), exec()],
            vec![],
            vec![],
            &vec![],
            asm_op(),
            0,
        )
        .unwrap();
    let source = &builder.graph.nodes[u.source_ref.0 as usize];
    assert_eq!(source.inline_calls, chain);
}

// MODULES
// ================================================================================================

fn source(op: Operation, reaches: Vec<GlobalItemIndex>) -> ProcedureSource {
    ProcedureSource {
        span: at(0),
        attributes: no_attributes(),
        num_locals: 0,
        signature: None,
        declared: None,
        body: vec![inst(op)],
        begin: asm_op(),
        reaches,
        location: None,
        frame_init: vec![Operation::Noop],
        frame_start: vec![Operation::Neg],
        frame_end: vec![Operation::Drop],
    }
}

fn symbol(name: &str, visibility: Visibility, item: SymbolItem) -> Symbol {
    Symbol { name: name.to_string(), visibility, item }
}

fn module(name: &str, symbols: Vec<Symbol>, imports: Vec<Import>) -> Module {
    Module {
        kind: ModuleKind::Library,
        path: path(&[name]),
        symbols,
        imports,
        submodules: vec![],
        advice_map: None,
    }
}

fn gid(module: u32, index: u32) -> GlobalItemIndex {
    GlobalItemIndex { module, index }
}

fn sample_modules() -> Vec<Module> {
    let callee = source(Operation::Add, vec![gid(0, 0)]);
    let mut caller = source(Operation::Mul, vec![gid(0, 1), gid(0, 0)]);
    caller.body.push(Op::Inst(Instruction::Call {
        span: at(0),
        target: Target::Item { gid: gid(0, 0), compiled: None },
        is_syscall: false,
        asm_op: asm_op(),
    }));
    caller.num_locals = 4;
    let import = Import {
        local_name: "again".to_string(),
        visibility: Visibility::Public,
        span: at(3),
        is_item: true,
        resolved: Some(gid(0, 2)),
    };
    vec![
        module(
            "b",
            vec![
                symbol("hidden", Visibility::Private, SymbolItem::Procedure(callee)),
                symbol("run", Visibility::Public, SymbolItem::Procedure(caller)),
                symbol("count", Visibility::Public, SymbolItem::Constant { value: ConstantValue::Int(42) }),
            ],
            vec![],
        ),
        module(
            "a",
            vec![symbol(
                "linked",
                Visibility::Public,
                SymbolItem::Compiled(ItemInfo::Procedure {
                    compiled: CompiledProcedure { mast_root: test_word(9), hint: no_hint() },
                    signature: None,
                    attributes: no_attributes(),
                }),
            )],
            vec![import],
        ),
    ]
}

fn export_path(export: &PendingPackageExport) -> String {
    export.path().to_string()
}

#[test]
fn public_items_are_exported_in_the_order_of_their_paths() {
    let modules = sample_modules();
    let mut builder = new_builder();
    let Ok(exports) =
        assembler().assemble_library_product(&modules, &vec![0, 1], &mut builder)
    else {
        panic!("expected exports");
    };
    let paths: Vec<String> = exports.iter().map(export_path).collect();
    assert_eq!(paths, ["::a::again", "::a::linked", "::b::count", "::b::run"]);
    assert!(matches!(exports[0], PendingPackageExport::Constant { value: ConstantValue::Int(42), .. }));
    let PendingPackageExport::Procedure(linked) = &exports[1] else {
        panic!("expected a procedure");
    };
    assert_eq!(linked.digest, test_word(9));
    let PendingPackageExport::Procedure(run) = &exports[3] else {
        panic!("expected a procedure");
    };
    let called =
        merge_in_domain(&digest(vec![Operation::Add]), &Word::default(), CALL_DOMAIN);
    let first = merge_in_domain(
        &digest(vec![Operation::Neg, Operation::Mul]),
        &called,
        JOIN_DOMAIN,
    );
    let expected = merge_in_domain(&first, &digest(vec![Operation::Drop]), JOIN_DOMAIN);
    assert_eq!(run.digest, expected);
    assert!(builder.get_procedure(gid(0, 0)).is_some());

    let Ok(built) = builder.build() else { panic!("expected a forest") };
    let Ok(finished) = finish_exports(exports, &built) else { panic!("expected exports") };
    assert_eq!(finished.len(), 4);
    assert!(matches!(finished[0], PackageExport::Constant { value: ConstantValue::Int(42), .. }));
    let PackageExport::Procedure(linked) = &finished[1] else { panic!("expected a procedure") };
    assert_eq!(built.mast_forest.node_digest(linked.node), linked.digest);
    let PackageExport::Procedure(run) = &finished[3] else { panic!("expected a procedure") };
    assert_eq!(built.mast_forest.node_digest(run.node), expected);
    assert!(built.mast_forest.roots.contains(&run.node));
    assert!(run.source_node.is_some());
}

#[test]
fn a_library_is_its_forest_with_exports_and_modules() {
    let modules = sample_modules();
    let Ok(product) = assembler().build_library_product(&modules, &vec![0, 1], new_builder())
    else {
        panic!("expected a library");
    };
    assert_eq!(product.exports.len(), 4);
    let mut procedures = 0;
    for export in &product.exports {
        if let PackageExport::Procedure(procedure) = export {
            let forest = &product.built.mast_forest;
            assert_eq!(forest.node_digest(procedure.node), procedure.digest);
            assert!(forest.roots.contains(&procedure.node));
            procedures += 1;
        }
    }
    assert_eq!(procedures, 2);
    let paths: Vec<String> = product.modules.iter().map(|e| e.path.to_string()).collect();
    assert_eq!(paths, ["::a", "::b"]);

    let mut modules = sample_modules();
    modules[1].imports[0].resolved = None;
    assert!(matches!(
        assembler().build_library_product(&modules, &vec![0, 1], new_builder()),
        Err(ProductError::Assembly(AssemblyError::UnresolvedImport { span })) if span == at(3)
    ));
    let Ok(empty) = MastForestBuilder::new_with_static_libraries(&assembler().libraries) else {
        panic!("expected a builder");
    };
    assert!(matches!(
        assembler().build_library_product(&sample_modules(), &vec![0, 1], empty),
        Err(ProductError::Build(MastForestBuilderError::Missing(_)))
    ));
}

#[test]
fn procedures_that_were_not_kept_are_not_exported() {
    let modules = sample_modules();
    let mut builder = new_builder();
    let Ok(exports) = assembler().assemble_library_product(&modules, &vec![0, 1], &mut builder)
    else {
        panic!("expected exports");
    };
    let Ok(empty) = new_builder().build() else { panic!("expected a forest") };
    assert!(matches!(
        finish_exports(exports, &empty),
        Err(AssemblyError::NotFinalized { .. })
    ));
}

#[test]
fn paths_are_exported_once_and_imports_lead_somewhere() {
    let mut modules = sample_modules();
    modules[1].imports[0].local_name = "linked".to_string();
    let mut builder = new_builder();
    assert!(matches!(
        assembler().assemble_library_product(&modules, &vec![0, 1], &mut builder),
        Err(AssemblyError::DuplicateExportPath { path }) if path.ends_with("::linked")
    ));
    let mut modules = sample_modules();
    modules[1].imports[0].resolved = None;
    let mut builder = new_builder();
    assert!(matches!(
        assembler().assemble_library_product(&modules, &vec![0, 1], &mut builder),
        Err(AssemblyError::UnresolvedImport { span }) if span == at(3)
    ));
    let mut modules = sample_modules();
    for (module, value) in modules.iter_mut().zip([1, 2]) {
        let mut advice = AdviceMap::new();
        advice.insert(test_word(7), vec![felt(value)]);
        module.advice_map = Some(advice);
    }
    let mut builder = new_builder();
    assert!(matches!(
        assembler().assemble_library_product(&modules, &vec![0, 1], &mut builder),
        Err(AssemblyError::AdviceConflict { key }) if key == test_word(7)
    ));
}

#[test]
fn programs_start_at_their_entry_point() {
    let modules = vec![module(
        "exec",
        vec![symbol(
            "main",
            Visibility::Public,
            SymbolItem::Procedure(source(Operation::Add, vec![gid(0, 0)])),
        )],
        vec![],
    )];
    let mut builder = new_builder();
    let Ok(body) = assembler().assemble_executable_modules(
        &modules,
        0,
        &"main".to_string(),
        &mut builder,
    ) else {
        panic!("expected a program");
    };
    assert_eq!(
        builder.mast_root(body.node_ref),
        digest(vec![Operation::Noop, Operation::Add]),
    );
    let mut builder = new_builder();
    assert!(matches!(
        assembler().assemble_executable_modules(
            &modules,
            0,
            &"other".to_string(),
            &mut builder,
        ),
        Err(AssemblyError::MissingEntrypoint)
    ));
    let mut modules = modules;
    if let SymbolItem::Procedure(source) = &mut modules[0].symbols[0].item {
        source.num_locals = 1;
    }
    let mut builder = new_builder();
    assert!(matches!(
        assembler().assemble_executable_modules(
            &modules,
            0,
            &"main".to_string(),
            &mut builder,
        ),
        Err(AssemblyError::EntrypointWithLocals)
    ));
}

#[test]
fn a_program_is_its_forest_with_its_entry_point() {
    let modules = vec![module(
        "exec",
        vec![
            symbol(
                "main",
                Visibility::Public,
                SymbolItem::Procedure(source(Operation::Add, vec![gid(0, 0)])),
            ),
            symbol("count", Visibility::Public, SymbolItem::Constant {
                value: ConstantValue::Int(1),
            }),
        ],
        vec![],
    )];
    let Ok(program) =
        assembler().build_program_product(&modules, 0, &"main".to_string(), new_builder())
    else {
        panic!("expected a program");
    };
    let forest = &program.built.mast_forest;
    assert_eq!(
        forest.node_digest(program.entry_node),
        digest(vec![Operation::Noop, Operation::Add]),
    );
    assert!(forest.roots.contains(&program.entry_node));
    let source = program.entry_source.unwrap();
    assert_eq!(program.built.graph.nodes[source as usize].exec_node, program.entry_node.0);
    assert!(matches!(
        assembler().build_program_product(&modules, 0, &"count".to_string(), new_builder()),
        Err(ProductError::Assembly(AssemblyError::MissingEntrypoint))
    ));
    let mut modules = modules;
    if let SymbolItem::Procedure(source) = &mut modules[0].symbols[0].item {
        source.body.push(Op::Inst(Instruction::Call {
            span: at(0),
            target: Target::Root(test_word(9)),
            is_syscall: false,
            asm_op: asm_op(),
        }));
    }
    let nameless = MastForestBuilder::new(AdviceMap::new());
    assert!(matches!(
        assembler().build_program_product(&modules, 0, &"main".to_string(), nameless),
        Err(ProductError::Build(MastForestBuilderError::Missing(_)))
    ));
}

#[test]
fn a_body_may_start_with_code_that_is_linked_elsewhere() {
    let mut procedure = source(Operation::Add, vec![gid(0, 0)]);
    procedure.body.insert(
        0,
        Op::Inst(Instruction::Exec { span: at(0), target: Target::Root(test_word(9)) }),
    );
    let modules = vec![module(
        "m",
        vec![symbol("run", Visibility::Public, SymbolItem::Procedure(procedure))],
        vec![],
    )];
    let Ok(product) = assembler().build_library_product(&modules, &vec![0], new_builder()) else {
        panic!("expected a library");
    };
    let PackageExport::Procedure(run) = &product.exports[0] else {
        panic!("expected a procedure");
    };
    assert_eq!(
        run.digest,
        merge_in_domain(&test_word(9), &digest(vec![Operation::Add]), JOIN_DOMAIN),
    );
}

fn alias(name: &str, visibility: Visibility, ty: TypeExpr) -> Symbol {
    let ident = Ident { span: at(20), name: name.to_string() };
    symbol(
        name,
        visibility,
        SymbolItem::Type {
            decl: TypeDecl::Alias(TypeAlias::new(visibility, ident, ty)),
            ty: Type::Felt,
        },
    )
}

fn reference(name: &str, start: u32) -> TypeExpr {
    TypeExpr::Ref(at(start), path(&[name]))
}

fn leads_to(name: &str, target: Option<GlobalItemIndex>) -> TypeReference {
    TypeReference { module: 0, path: path(&[name]), target }
}

#[test]
fn exported_types_rest_on_public_types() {
    let felt_type = || TypeExpr::primitive(Type::Felt);
    let mut taker = source(Operation::Add, vec![]);
    taker.declared =
        Some(FunctionType::new(CallConv::Fast, vec![reference("Outer", 1)], vec![]));
    let modules = |inner: Visibility| {
        let mut taker_source = source(Operation::Add, vec![gid(0, 0)]);
        taker_source.declared =
            Some(FunctionType::new(CallConv::Fast, vec![reference("Outer", 1)], vec![]));
        vec![module(
            "m",
            vec![
                symbol("take", Visibility::Public, SymbolItem::Procedure(taker_source)),
                alias("Outer", Visibility::Public, reference("Inner", 2)),
                alias("Inner", inner, felt_type()),
                alias("Unused", Visibility::Private, felt_type()),
            ],
            vec![],
        )]
    };
    let refs = vec![
        leads_to("Outer", Some(gid(0, 1))),
        leads_to("Inner", Some(gid(0, 2))),
        leads_to("Elsewhere", None),
    ];
    let public = modules(Visibility::Public);
    let checker = TypeChecker::new(&public, &refs);
    assert_eq!(checker.verify_exported_signature_type_visibility(&vec![0]), Ok(()));
    let private = modules(Visibility::Private);
    let checker = TypeChecker::new(&private, &refs);
    assert_eq!(
        checker.verify_exported_signature_type_visibility(&vec![0]),
        Err(ExportFault::PrivateTypeInExportedSignature { span: at(2), defined: at(20) }),
    );
    assert_eq!(
        checker.verify_exported_item(gid(0, 3), Some(at(8))),
        Err(ExportFault::PrivateTypeInExportedType { span: at(8), defined: at(20) }),
    );
    assert!(matches!(
        assembler().assemble_library_modules(&private, &refs, &vec![0], new_builder()),
        Err(ProductError::Visibility(ExportFault::PrivateTypeInExportedSignature { .. }))
    ));
    let Ok(product) =
        assembler().assemble_library_modules(&public, &refs, &vec![0], new_builder())
    else {
        panic!("expected a library");
    };
    assert_eq!(product.exports.len(), 3);
    let undefined = vec![leads_to("Outer", Some(gid(0, 1)))];
    let checker = TypeChecker::new(&public, &undefined);
    assert_eq!(
        checker.verify_exported_signature(0, &taker.declared),
        Err(ExportFault::Undefined { span: at(2) }),
    );
}

#[test]
fn types_may_refer_to_themselves() {
    let modules = vec![module(
        "m",
        vec![
            alias("A", Visibility::Public, reference("B", 1)),
            alias("B", Visibility::Public, reference("A", 2)),
        ],
        vec![],
    )];
    let refs = vec![leads_to("A", Some(gid(0, 0))), leads_to("B", Some(gid(0, 1)))];
    let checker = TypeChecker::new(&modules, &refs);
    assert_eq!(checker.verify_exported_signature_type_visibility(&vec![0]), Ok(()));
}

#[test]
fn packages_hold_what_public_submodules_lead_to() {
    let sub = |name: &str, visibility: Visibility| SubmoduleDecl {
        name: name.to_string(),
        visibility,
    };
    let with = |components: &[&str], submodules: Vec<SubmoduleDecl>| Module {
        path: path(components),
        submodules,
        ..module("x", vec![], vec![])
    };
    let modules = vec![
        with(&["z"], vec![sub("open", Visibility::Public), sub("shut", Visibility::Private)]),
        with(&["z", "shut"], vec![]),
        with(&["z", "open"], vec![sub("deep", Visibility::Public)]),
        with(&["z", "open", "deep"], vec![]),
        with(&["other"], vec![]),
    ];
    let entries = package_modules(&modules, &vec![0]);
    let paths: Vec<String> = entries.iter().map(|e| e.path.to_string()).collect();
    assert_eq!(paths, ["::z", "::z::open", "::z::open::deep"]);
    assert_eq!(entries[0].submodules, ["open"]);
}

#[test]
fn libraries_with_debug_information_are_told_apart() {
    let identity = LibraryIdentity::new(test_word(1))
        .with_source_library_commitment(test_word(2))
        .with_alternate_source_library_commitment(test_word(3));
    assert_eq!(identity.commitment, test_word(2));
    assert_eq!(identity.alternate, Some(test_word(3)));
}

// SOURCE FILES
// ================================================================================================

fn fs_path(is_absolute: bool, components: &[&str]) -> FsPath {
    FsPath { is_absolute, components: components.iter().map(|c| c.to_string()).collect() }
}

#[test]
fn the_working_directory_is_trimmed_off() {
    let trimmer = SourcePathTrimmer::new(fs_path(true, &["home", "me"]), None);
    let trimmed = trimmer.trim_path(&fs_path(true, &["home", "me", "src", "a.masm"]), None);
    assert!(!trimmed.is_absolute);
    assert_eq!(trimmed.components, ["src", "a.masm"]);
    let outside = trimmer.trim_path(&fs_path(true, &["tmp", "a.masm"]), None);
    assert!(outside.is_absolute);
    assert_eq!(outside.components, ["tmp", "a.masm"]);
    let canonical = Some(fs_path(true, &["home", "me", "b.masm"]));
    let linked = trimmer.trim_path(&fs_path(true, &["link", "b.masm"]), canonical);
    assert_eq!(linked.components, ["b.masm"]);
    let relative = fs_path(false, &["a.masm"]);
    assert!(trimmer.trim_uri(None, &relative, None).is_none());
    let absolute = fs_path(true, &["home", "me", "a.masm"]);
    assert!(trimmer.trim_uri(Some("https".to_string()), &absolute, None).is_none());
    let trimmed = trimmer.trim_uri(Some("file".to_string()), &absolute, None).unwrap();
    assert_eq!(trimmed.components, ["a.masm"]);
}

#[test]
fn sections_describe_procedures_and_trim_their_files() {
    let mut sections = DebugInfoSections::new();
    let procedure = Procedure {
        signature: Some(Signature {
            cc: CallConv::Fast,
            params: vec![],
            results: vec![Type::U8],
        }),
        mast_root: test_word(2),
        ..procedure_with_attributes(vec![])
    };
    sections
        .register_procedure_debug_info(&procedure, fs_path(true, &["home", "a.masm"]), 3, 4)
        .unwrap();
    let row = sections.functions[0];
    assert_eq!(sections.names.get_string(row.name_idx).unwrap(), "::test::module::foo");
    assert_eq!((row.line, row.column, row.mast_root), (3, 4, test_word(2)));
    assert!(matches!(
        sections.types.get_type(row.type_idx.unwrap()),
        Some(DebugTypeInfo::Function { .. })
    ));
    let trimmer = SourcePathTrimmer::new(fs_path(true, &["home"]), None);
    sections.trim_paths(&trimmer, vec![None]);
    assert_eq!(sections.files[0].components, ["a.masm"]);
}
