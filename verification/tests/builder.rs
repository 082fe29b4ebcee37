//! Building forests: shared execution nodes, separate source occurrences.

use std::collections::BTreeSet;

use miden_mast::batch::batch_operations;
use miden_mast::builder::{AssemblyOp, MastForestBuilder};
use miden_mast::debug_info::{
    DebugSourceAsmOp, DebugSourceCallFrame, DebugSourceInlineCall,
    DebugSourceVar, SourceNode,
};
use miden_mast::debug_types::{
    DebugFieldInfo, DebugPrimitiveType, DebugTypeError, DebugTypeInfo,
};
use miden_mast::debug_var::FileLineCol;
use miden_mast::felt::{Felt, Word};
use miden_mast::finalizer::MastForestBuilderError;
use miden_mast::finish::BuiltMastForest;
use miden_mast::forest::{AdviceMap, MastForest};
use miden_mast::hasher::merge_in_domain;
use miden_mast::merge::PROCEDURE_INLINING_THRESHOLD;
use miden_mast::node::{
    digest_of_batches, MastNodeId, NodeKind, JOIN_DOMAIN, LOOP_DOMAIN,
};
use miden_mast::op_index::{adjust_index, raw_operations};
use miden_mast::operation::Operation;
use miden_mast::pending::{
    MastNodeRef, MastNodeUse, PendingMastNodeDraft, PendingMastNodeKind, SourceNodeRef,
};
use miden_mast::registry::{DebugLocation, DebugTables};
use miden_mast::source_graph::{BuildError, FunctionInfo};
use miden_mast::static_import::{
    LibraryIdentity, LinkHint, LinkPlan, StaticImportError, StaticLibraries, StaticRoots,
};
use miden_mast::static_metadata::PackageDebugInfo;

fn felt(value: u64) -> Felt {
    Felt::new_unchecked(value)
}

fn test_word(value: u64) -> Word {
    Word::new([felt(value), felt(0), felt(0), felt(0)])
}

/// A builder with two locations, in one file.
fn new_builder() -> MastForestBuilder {
    let mut builder = MastForestBuilder::new(AdviceMap::new());
    let tables = &mut builder.registry.tables;
    let file_idx = tables.add_file("file:///test.masm".to_string()).unwrap();
    for start in 0..2 {
        let location = DebugLocation { file_idx, start, end: start + 1 };
        assert_eq!(tables.add_location(location), Ok(start));
    }
    builder
}

fn name(builder: &mut MastForestBuilder, text: &str) -> u32 {
    builder.registry.tables.add_string(text.to_string()).unwrap()
}

fn test_asm_op(builder: &mut MastForestBuilder, context: &str, op: &str) -> AssemblyOp {
    AssemblyOp {
        location_idx: None,
        context_name_idx: name(builder, context),
        op_name_idx: name(builder, op),
        num_cycles: 1,
    }
}

fn asm_row(builder: &mut MastForestBuilder, context: &str, op: &str) -> DebugSourceAsmOp {
    let asm_op = test_asm_op(builder, context, op);
    DebugSourceAsmOp {
        op_idx: 0,
        location_idx: None,
        context_name_idx: asm_op.context_name_idx,
        op_name_idx: asm_op.op_name_idx,
        num_cycles: 1,
    }
}

fn var_row(builder: &mut MastForestBuilder, text: &str, value_idx: u32) -> DebugSourceVar {
    DebugSourceVar {
        op_idx: 0,
        name_idx: name(builder, text),
        type_id: None,
        arg_idx: None,
        location_idx: None,
        value_idx,
    }
}

fn asm_at(mut row: DebugSourceAsmOp, op_idx: u32) -> DebugSourceAsmOp {
    row.op_idx = op_idx;
    row
}

fn var_at(mut row: DebugSourceVar, op_idx: u32) -> DebugSourceVar {
    row.op_idx = op_idx;
    row
}

fn block_use(
    builder: &mut MastForestBuilder,
    ops: Vec<Operation>,
    asm_ops: Vec<DebugSourceAsmOp>,
    debug_vars: Vec<DebugSourceVar>,
    inline_calls: Vec<DebugSourceInlineCall>,
    functions: Vec<u32>,
) -> MastNodeUse {
    builder.ensure_block_use(&ops, asm_ops, debug_vars, inline_calls, functions).unwrap()
}

fn block_ref(
    builder: &mut MastForestBuilder,
    ops: Vec<Operation>,
    asm_ops: Vec<DebugSourceAsmOp>,
    debug_vars: Vec<DebugSourceVar>,
) -> MastNodeRef {
    block_use(builder, ops, asm_ops, debug_vars, vec![], vec![]).node_ref
}

fn plain_block(builder: &mut MastForestBuilder, op: Operation) -> MastNodeRef {
    block_ref(builder, vec![op], vec![], vec![])
}

fn block_digest(ops: Vec<Operation>) -> Word {
    digest_of_batches(&batch_operations(&ops))
}

fn uses(builder: &MastForestBuilder, refs: &[MastNodeRef]) -> Vec<MastNodeUse> {
    let refs = refs.to_vec();
    let sources = builder.source_refs_for_node_ref_occurrences(&refs);
    refs.iter().zip(sources).map(|(r, s)| MastNodeUse::new(*r, SourceNodeRef(s))).collect()
}

fn split_ref(
    builder: &mut MastForestBuilder,
    branches: [MastNodeRef; 2],
    asm_op: AssemblyOp,
) -> MastNodeRef {
    let u = uses(builder, &branches);
    builder.ensure_split_node_use(u[0], u[1], asm_op, vec![]).unwrap().node_ref
}

fn call_ref(
    builder: &mut MastForestBuilder,
    callee: MastNodeRef,
    asm_op: AssemblyOp,
) -> MastNodeRef {
    let u = uses(builder, &[callee]);
    builder.ensure_call_node_use(u[0], false, asm_op, vec![]).unwrap().node_ref
}

fn merge_refs(builder: &mut MastForestBuilder, refs: &[MastNodeRef]) -> Vec<MastNodeRef> {
    let list = uses(builder, refs);
    builder.merge_basic_block_uses(&list).unwrap().iter().map(|u| u.node_ref).collect()
}

fn join_refs(builder: &mut MastForestBuilder, refs: &[MastNodeRef]) -> MastNodeRef {
    let list = uses(builder, refs);
    builder.join_node_uses(&list, None).unwrap().node_ref
}

fn latest(builder: &MastForestBuilder, node: MastNodeRef) -> MastNodeUse {
    MastNodeUse::new(node, SourceNodeRef(builder.graph.latest(node.0).unwrap()))
}

/// Marks a node as a procedure root: each time with its next occurrence, then with its last one.
fn root(builder: &mut MastForestBuilder, node: MastNodeRef) -> MastNodeRef {
    let chosen = builder
        .graph
        .roots
        .iter()
        .filter(|s| builder.graph.nodes[**s as usize].exec_node == node.0)
        .count();
    let history = &builder.graph.history[node.0 as usize];
    let source = *history.get(chosen).unwrap_or(history.last().unwrap());
    builder.record_procedure_root_use(MastNodeUse::new(node, SourceNodeRef(source)));
    node
}

struct Built {
    forest: MastForest,
    built: BuiltMastForest,
}

impl Built {
    fn id(&self, node: MastNodeRef) -> MastNodeId {
        MastNodeId(self.built.node_id_by_ref[node.0 as usize].unwrap())
    }

    fn has(&self, node: MastNodeRef) -> bool {
        self.built.node_id_by_ref[node.0 as usize].is_some()
    }

    fn source_id(&self, source: SourceNodeRef) -> u32 {
        self.built.graph.source_id_by_ref[source.0 as usize].unwrap()
    }

    fn sources(&self) -> &Vec<SourceNode> {
        &self.built.graph.nodes
    }

    fn sources_of(&self, node: MastNodeId) -> Vec<&SourceNode> {
        self.sources().iter().filter(|s| s.exec_node == node.0).collect()
    }

    fn name(&self, idx: u32) -> &str {
        &self.built.tables.section.strings[idx as usize]
    }

    fn ty(&self, idx: u32) -> &DebugTypeInfo {
        &self.built.tables.section.types[idx as usize]
    }

    fn contexts(&self, node: MastNodeId) -> Vec<String> {
        self.sources_of(node)
            .iter()
            .flat_map(|s| s.asm_ops.iter().map(|row| self.name(row.context_name_idx).to_string()))
            .collect()
    }

    fn variables(&self, node: MastNodeId) -> Vec<String> {
        self.sources_of(node)
            .iter()
            .flat_map(|s| s.debug_vars.iter().map(|row| self.name(row.name_idx).to_string()))
            .collect()
    }

    fn digest(&self, node: MastNodeId) -> Word {
        self.forest.nodes[node.0 as usize].digest
    }

    fn kind(&self, node: MastNodeId) -> &NodeKind {
        &self.forest.nodes[node.0 as usize].kind
    }

    fn is_root(&self, node: MastNodeId) -> bool {
        self.forest.roots.contains(&node)
    }

    fn package(&self) -> PackageDebugInfo {
        let mut tables = DebugTables::new();
        tables.import(&mut vec![], &self.built.tables, &vec![]).unwrap();
        PackageDebugInfo {
            nodes: self.sources().clone(),
            roots: self.built.graph.roots.clone(),
            functions: self.built.functions.clone(),
            tables,
        }
    }
}

fn build(builder: MastForestBuilder) -> Built {
    let built = match builder.build() {
        Ok(built) => built,
        Err(err) => panic!("unexpected error: {err:?}"),
    };
    Built { forest: built.mast_forest.clone(), built }
}

fn no_libraries() -> StaticLibraries {
    StaticLibraries {
        merged: MastForest::new(),
        roots: StaticRoots { libraries: vec![], root_maps: vec![] },
        forests: vec![],
        debug_infos: vec![],
    }
}

fn no_hint() -> LinkHint {
    LinkHint { commitment: None, root: None, source: None }
}

fn external(builder: &mut MastForestBuilder, mast_root: Word) -> MastNodeRef {
    builder
        .ensure_external_link_with_source_ref(&no_libraries(), no_hint(), mast_root)
        .unwrap()
}

fn one_library(forest: &MastForest, debug_info: Option<PackageDebugInfo>) -> StaticLibraries {
    StaticLibraries {
        merged: forest.clone(),
        roots: StaticRoots {
            libraries: vec![LibraryIdentity::new(forest.commitment())],
            root_maps: vec![forest.roots.iter().map(|r| (*r, *r)).collect()],
        },
        forests: vec![forest.clone()],
        debug_infos: vec![debug_info],
    }
}

fn function(name_idx: u32, mast_root: Word) -> FunctionInfo {
    FunctionInfo {
        source_node: None,
        name_idx,
        linkage_name_idx: None,
        file_idx: 0,
        line: 1,
        column: 1,
        type_idx: None,
        mast_root,
    }
}

fn declaration(uri: &str, line: u32) -> FileLineCol {
    FileLineCol { uri: uri.to_string(), line, column: 1 }
}

// EXECUTING IN PLACE
// ================================================================================================

#[test]
fn plain_exec_reuses_the_exact_source_occurrence() {
    let mut builder = new_builder();
    let target = block_use(&mut builder, vec![Operation::Add], vec![], vec![], vec![], vec![]);
    let count = builder.graph.nodes.len();
    for _ in 0..1_024 {
        assert_eq!(builder.record_exec_inline_calls(target, &vec![]), Ok(target));
    }
    assert_eq!(builder.graph.nodes.len(), count);
}

#[test]
fn repeated_decorated_exec_reuses_the_same_source_tree() {
    let mut builder = new_builder();
    let target = block_use(&mut builder, vec![Operation::Add], vec![], vec![], vec![], vec![]);
    let place = declaration("file:///decorated-exec.masm", 1);
    let callee_idx = builder
        .register_inline_function("source::callee".to_string(), None, &place)
        .unwrap();
    let duplicate_idx = builder
        .register_inline_function("source::callee".to_string(), None, &place)
        .unwrap();
    assert_eq!(callee_idx, duplicate_idx);
    let inline_call = DebugSourceInlineCall { op_idx: 0, callee_idx, loc_idx: 0 };
    let decorated = builder.record_exec_inline_calls(target, &vec![inline_call]).unwrap();
    let count = builder.graph.nodes.len();
    for _ in 0..1_024 {
        assert_eq!(builder.record_exec_inline_calls(target, &vec![inline_call]), Ok(decorated));
    }
    assert_eq!(builder.graph.nodes.len(), count);
    assert_eq!(builder.graph.functions.len(), 1);
    assert_eq!(latest(&builder, target.node_ref), target);
}

#[test]
fn external_exec_preserves_the_source_boundary_index() {
    let mut builder = new_builder();
    let mast_root = test_word(7);
    let name_idx = name(&mut builder, "external::callee");
    builder.graph.add_function(function(name_idx, mast_root));
    let inline_call = DebugSourceInlineCall { op_idx: 0, callee_idx: 0, loc_idx: 0 };
    let external_ref = external(&mut builder, mast_root);
    let boundary = builder
        .graph
        .push(
            SourceNode {
                exec_node: external_ref.0,
                children: vec![],
                op_start: 7,
                op_end: 7,
                asm_ops: vec![],
                debug_vars: vec![],
                inline_calls: vec![DebugSourceInlineCall { op_idx: 7, ..inline_call }],
                call_frames: vec![],
            },
            &vec![],
            true,
            false,
        )
        .unwrap();
    let target = MastNodeUse::new(external_ref, SourceNodeRef(boundary));
    let decorated = builder.record_exec_inline_calls(target, &vec![inline_call]).unwrap();
    let source = &builder.graph.nodes[decorated.source_ref.0 as usize];
    assert_eq!((source.op_start, source.op_end), (7, 7));
    assert_eq!(source.inline_calls.len(), 2);
    assert!(source.inline_calls.iter().all(|row| row.op_idx == 7));
}

#[test]
fn external_source_reuses_an_existing_concrete_occurrence() {
    let mut builder = new_builder();
    let target = block_use(&mut builder, vec![Operation::Add], vec![], vec![], vec![], vec![]);
    let count = builder.graph.nodes.len();
    let mast_root = builder.mast_root(target.node_ref);
    let external_ref = external(&mut builder, mast_root);
    assert_eq!(external_ref, target.node_ref);
    assert_eq!(latest(&builder, external_ref).source_ref, target.source_ref);
    assert_eq!(builder.graph.nodes.len(), count);
    assert!(builder.graph.boundary.iter().all(|boundary| !boundary));
}

#[test]
fn decorated_external_source_is_remapped_when_the_concrete_node_arrives() {
    let mut builder = new_builder();
    let digest = block_digest(vec![Operation::Add]);
    let name_idx = name(&mut builder, "external::callee");
    builder.graph.add_function(function(name_idx, digest));
    let inline_call = DebugSourceInlineCall { op_idx: 0, callee_idx: 0, loc_idx: 0 };
    let external_ref = external(&mut builder, digest);
    let external_use = latest(&builder, external_ref);
    let decorated = builder.record_exec_inline_calls(external_use, &vec![inline_call]).unwrap();
    builder.record_procedure_root_use(decorated);

    let concrete = block_use(&mut builder, vec![Operation::Add], vec![], vec![], vec![], vec![]);
    assert_eq!(concrete.node_ref, external_ref);
    assert!(!builder.graph.boundary[decorated.source_ref.0 as usize]);
    let remapped = &builder.graph.nodes[decorated.source_ref.0 as usize];
    assert_eq!((remapped.op_start, remapped.op_end), (0, 1));
    assert_eq!(remapped.inline_calls, vec![inline_call]);

    let built = build(builder);
    let remapped = &built.sources()[built.source_id(decorated.source_ref) as usize];
    assert_eq!((remapped.op_start, remapped.op_end), (0, 1));
    assert_eq!(remapped.inline_calls.len(), 1);
    assert_eq!(remapped.inline_calls[0].op_idx, 0);
}

// PRUNING AND MERGING
// ================================================================================================

#[test]
fn test_build_without_roots_prunes_all_nodes() {
    let mut builder = new_builder();
    let dead = plain_block(&mut builder, Operation::Add);
    let built = build(builder);
    assert!(!built.has(dead));
    assert_eq!(built.forest.num_nodes(), 0);
    assert_eq!(built.forest.roots.len(), 0);
}

#[test]
fn test_build_prunes_unreachable_nodes() {
    let mut builder = new_builder();
    let live = plain_block(&mut builder, Operation::Add);
    let dead = plain_block(&mut builder, Operation::Mul);
    root(&mut builder, live);
    let built = build(builder);
    assert!(built.has(live));
    assert!(!built.has(dead));
    assert_eq!(built.forest.num_nodes(), 1);
    assert_eq!(built.forest.roots.len(), 1);
}

#[test]
fn test_merge_basic_blocks_keeps_non_mergeable_block_standalone() {
    let mut builder = new_builder();
    let large = vec![Operation::Add; PROCEDURE_INLINING_THRESHOLD * 1024];
    let large = block_ref(&mut builder, large, vec![], vec![]);
    root(&mut builder, large);
    let small = plain_block(&mut builder, Operation::Add);
    let merged = merge_refs(&mut builder, &[large, small]);
    assert_eq!(merged.len(), 2);
    assert_eq!(merged[0], large);
    assert_eq!(merged[1], small);
}

#[test]
fn test_build_keeps_existing_forest_root_after_merge() {
    let mut builder = new_builder();
    let root_block = plain_block(&mut builder, Operation::Add);
    root(&mut builder, root_block);
    let root_digest = builder.mast_root(root_block);
    let tail = plain_block(&mut builder, Operation::Mul);
    let merged = merge_refs(&mut builder, &[root_block, tail]);
    assert_eq!(merged.len(), 1);
    assert_ne!(merged[0], root_block);
    let built = build(builder);
    let id = built.id(root_block);
    assert!(built.is_root(id));
    assert_eq!(built.digest(id), root_digest);
}

#[test]
fn test_source_graph_preserves_pre_merge_block_ranges() {
    let mut builder = new_builder();
    let first = asm_row(&mut builder, "merge::first", "add");
    let second = asm_row(&mut builder, "merge::second", "mul");
    let a = block_ref(&mut builder, vec![Operation::Add], vec![first], vec![]);
    let b = block_ref(&mut builder, vec![Operation::Mul], vec![second], vec![]);
    let merged = merge_refs(&mut builder, &[a, b]);
    assert_eq!(merged.len(), 1);
    let merged = root(&mut builder, merged[0]);
    let built = build(builder);
    let sources = built.sources_of(built.id(merged));
    assert_eq!(built.built.graph.roots.len(), 1);
    assert!(sources.iter().any(|s| s.op_start == 0
        && s.op_end == 1
        && s.asm_ops.iter().any(|row| built.name(row.context_name_idx) == "merge::first")));
    assert!(sources.iter().any(|s| s.op_start == 1
        && s.op_end == 2
        && s.asm_ops.iter().any(|row| built.name(row.context_name_idx) == "merge::second")));
}

#[test]
fn test_source_graph_uses_full_merged_occurrence_as_control_flow_child() {
    let mut builder = new_builder();
    let first = asm_row(&mut builder, "merge::first", "add");
    let second = asm_row(&mut builder, "merge::second", "mul");
    let a = block_ref(&mut builder, vec![Operation::Add], vec![first], vec![]);
    let b = block_ref(&mut builder, vec![Operation::Mul], vec![second], vec![]);
    let merged = merge_refs(&mut builder, &[a, b])[0];
    let elsewhere = external(&mut builder, test_word(1));
    let joined = join_refs(&mut builder, &[merged, elsewhere]);
    root(&mut builder, joined);
    let built = build(builder);
    let top = &built.sources()[built.built.graph.roots[0] as usize];
    let child = &built.sources()[top.children[0] as usize];
    assert_eq!((child.op_start, child.op_end), (0, 2));
    let contexts: Vec<&str> =
        child.asm_ops.iter().map(|row| built.name(row.context_name_idx)).collect();
    assert_eq!(contexts, vec!["merge::first", "merge::second"]);
}

#[test]
fn test_source_graph_preserves_repeated_deduped_block_ranges_in_merge_window() {
    let mut builder = new_builder();
    let first = asm_row(&mut builder, "merge::first", "add");
    let second = asm_row(&mut builder, "merge::second", "add");
    let a = block_ref(&mut builder, vec![Operation::Add], vec![first], vec![]);
    let b = block_ref(&mut builder, vec![Operation::Add], vec![second], vec![]);
    assert_eq!(a, b);
    let merged = merge_refs(&mut builder, &[a, b]);
    assert_eq!(merged.len(), 1);
    let merged = root(&mut builder, merged[0]);
    let built = build(builder);
    let sources = built.sources_of(built.id(merged));
    assert!(sources.iter().any(|s| s.op_start == 0
        && s.op_end == 1
        && s.asm_ops.iter().any(|row| built.name(row.context_name_idx) == "merge::first")));
    assert!(sources.iter().any(|s| s.op_start == 1
        && s.op_end == 2
        && s.asm_ops.iter().any(|row| built.name(row.context_name_idx) == "merge::second")));
}

#[test]
fn test_block_merge_uses_selected_occurrence_inline_calls_and_functions() {
    let mut builder = new_builder();
    let mast_root = block_digest(vec![Operation::Add]);
    let name_a = name(&mut builder, "alias_a");
    let name_b = name(&mut builder, "alias_b");
    builder.graph.add_function(function(name_a, mast_root));
    builder.graph.add_function(function(name_b, mast_root));
    let asm_a = asm_row(&mut builder, "alias_a", "add");
    let asm_b = asm_row(&mut builder, "alias_b", "add");
    let var_a = var_row(&mut builder, "a", 0);
    let var_b = var_row(&mut builder, "b", 0);
    let call_a = DebugSourceInlineCall { op_idx: 0, callee_idx: 0, loc_idx: 0 };
    let call_b = DebugSourceInlineCall { op_idx: 0, callee_idx: 1, loc_idx: 1 };
    let alias_a = block_use(
        &mut builder,
        vec![Operation::Add],
        vec![asm_a],
        vec![var_a],
        vec![call_a],
        vec![0],
    );
    let alias_b = block_use(
        &mut builder,
        vec![Operation::Add],
        vec![asm_b],
        vec![var_b],
        vec![call_b],
        vec![1],
    );
    assert_eq!(alias_a.node_ref, alias_b.node_ref);
    assert_ne!(alias_a.source_ref, alias_b.source_ref);

    let tail = plain_block(&mut builder, Operation::Mul);
    let merged = merge_refs(&mut builder, &[alias_b.node_ref, tail]);
    assert_eq!(merged.len(), 1);
    let source_ref = latest(&builder, merged[0]).source_ref;
    let source = builder.graph.nodes[source_ref.0 as usize].clone();
    assert_eq!(source.inline_calls, vec![call_b]);
    assert_eq!(source.asm_ops[0].context_name_idx, name_b);
    let text_b = name(&mut builder, "b");
    assert_eq!(source.debug_vars[0].name_idx, text_b);
    assert_eq!(builder.graph.functions[0].source_node, Some(alias_a.source_ref.0));
    assert_eq!(builder.graph.functions[1].source_node, Some(source_ref.0));

    let second_tail = plain_block(&mut builder, Operation::Neg);
    let remerged = merge_refs(&mut builder, &[merged[0], second_tail]);
    assert_eq!(remerged.len(), 1);
    let source_ref = latest(&builder, remerged[0]).source_ref;
    let source = &builder.graph.nodes[source_ref.0 as usize];
    assert_eq!(source.inline_calls, vec![call_b]);
    assert_eq!(builder.graph.functions[0].source_node, Some(alias_a.source_ref.0));
    assert_eq!(builder.graph.functions[1].source_node, Some(source_ref.0));
}

#[test]
fn test_build_orders_external_nodes_before_non_external_nodes() {
    let mut builder = new_builder();
    let block = plain_block(&mut builder, Operation::Add);
    root(&mut builder, block);
    let external_a = external(&mut builder, test_word(2));
    let external_b = external(&mut builder, test_word(1));
    root(&mut builder, external_a);
    root(&mut builder, external_b);
    let key_a = builder.nodes[external_a.0 as usize].key;
    let key_b = builder.nodes[external_b.0 as usize].key;
    let (first, second) = if key_a.lt(&key_b) {
        (external_a, external_b)
    } else {
        (external_b, external_a)
    };
    let built = build(builder);
    assert_eq!(built.id(first), MastNodeId(0));
    assert_eq!(built.id(second), MastNodeId(1));
    assert!(built.forest.nodes[0].is_external());
    assert!(built.forest.nodes[1].is_external());
}

#[test]
fn test_concrete_node_replaces_same_digest_external_placeholder() {
    let mut builder = new_builder();
    let digest = block_digest(vec![Operation::Add]);
    let external_ref = external(&mut builder, digest);
    root(&mut builder, external_ref);
    let concrete = plain_block(&mut builder, Operation::Add);
    assert_eq!(external_ref, concrete);
    assert!(!builder.nodes[external_ref.0 as usize].kind.is_external());
    let built = build(builder);
    let id = built.id(external_ref);
    assert!(built.is_root(id));
    assert!(matches!(built.kind(id), NodeKind::Block(_)));
}

#[test]
fn test_non_leaf_replacement_rebinds_external_source_occurrences() {
    let mut builder = new_builder();
    let left = plain_block(&mut builder, Operation::Add);
    let right = plain_block(&mut builder, Operation::Mul);
    let left_source = latest(&builder, left).source_ref;
    let right_source = latest(&builder, right).source_ref;
    let join_digest =
        merge_in_domain(&builder.mast_root(left), &builder.mast_root(right), JOIN_DOMAIN);
    let external_ref = external(&mut builder, join_digest);
    let external_source = latest(&builder, external_ref).source_ref;
    let parent_digest = merge_in_domain(&join_digest, &Word::default(), LOOP_DOMAIN);
    let parent = builder
        .intern_pending_node_use(
            &PendingMastNodeDraft::new(
                PendingMastNodeKind::Loop,
                parent_digest,
                vec![external_ref],
            ),
            &vec![external_source.0],
        )
        .unwrap();
    root(&mut builder, parent.node_ref);
    let concrete = builder
        .intern_pending_node_use(
            &PendingMastNodeDraft::new(
                PendingMastNodeKind::Join,
                join_digest,
                vec![left, right],
            ),
            &vec![left_source.0, right_source.0],
        )
        .unwrap();
    assert_eq!(concrete.node_ref, external_ref);

    let built = build(builder);
    assert!(matches!(built.kind(built.id(concrete.node_ref)), NodeKind::Join(_, _)));
    assert!(matches!(built.kind(built.id(parent.node_ref)), NodeKind::Loop(_)));
    let parent_source = &built.sources()[built.source_id(parent.source_ref) as usize];
    assert_eq!(parent_source.children, vec![built.source_id(external_source)]);
    let external_row = &built.sources()[built.source_id(external_source) as usize];
    assert_eq!(
        external_row.children,
        vec![built.source_id(left_source), built.source_id(right_source)],
    );
}

#[test]
fn test_merge_basic_blocks_keeps_recorded_root_block_standalone() {
    let mut builder = new_builder();
    let large = vec![Operation::Add; PROCEDURE_INLINING_THRESHOLD * 1024];
    let large = block_ref(&mut builder, large, vec![], vec![]);
    root(&mut builder, large);
    let small = plain_block(&mut builder, Operation::Add);
    let merged = merge_refs(&mut builder, &[large, small]);
    assert_eq!(merged, vec![large, small]);
}

#[test]
fn test_merged_root_block_keeps_metadata() {
    let mut builder = new_builder();
    let var = var_row(&mut builder, "x", 0);
    let asm_rows = asm_row(&mut builder, "test", "add");
    let root_block = block_ref(&mut builder, vec![Operation::Add], vec![asm_rows], vec![var]);
    root(&mut builder, root_block);
    let other = plain_block(&mut builder, Operation::Mul);
    let merged = merge_refs(&mut builder, &[root_block, other]);
    assert_eq!(merged.len(), 1);
    assert_ne!(merged[0], root_block);
    let built = build(builder);
    let id = built.id(root_block);
    assert!(built.is_root(id));
    assert_eq!(built.variables(id), vec!["x"]);
    assert!(built.contexts(id).contains(&"test".to_string()));
}

// SHARED NODES
// ================================================================================================

#[test]
fn test_ensure_node_preserving_debug_vars_prevents_aliasing() {
    let mut builder = new_builder();
    let x = var_row(&mut builder, "x", 0);
    let y = var_row(&mut builder, "y", 1);
    let a = block_ref(&mut builder, vec![Operation::Add], vec![], vec![x]);
    let b = block_ref(&mut builder, vec![Operation::Add], vec![], vec![y]);
    assert_eq!(a, b);
    root(&mut builder, a);
    let built = build(builder);
    assert_eq!(built.variables(built.id(a)), vec!["x", "y"]);
    assert_eq!(built.id(a), built.id(b));
}

#[test]
fn test_source_graph_distinguishes_same_exec_debug_var_occurrences() {
    let mut builder = new_builder();
    let x = var_row(&mut builder, "x", 0);
    let y = var_row(&mut builder, "y", 1);
    let a = block_ref(&mut builder, vec![Operation::Add], vec![], vec![x]);
    let b = block_ref(&mut builder, vec![Operation::Add], vec![], vec![y]);
    assert_eq!(a, b);
    root(&mut builder, a);
    let built = build(builder);
    let found: BTreeSet<String> = built.variables(built.id(a)).into_iter().collect();
    assert_eq!(built.id(a), built.id(b));
    assert_eq!(built.forest.num_nodes(), 1);
    assert_eq!(built.built.graph.roots.len(), 1);
    assert_eq!(found, BTreeSet::from(["x".to_string(), "y".to_string()]));
}

#[test]
fn test_ensure_block_dedups_identical_debug_var_payloads() {
    let mut builder = new_builder();
    let first = var_row(&mut builder, "x", 0);
    let second = var_row(&mut builder, "x", 0);
    let a = block_ref(&mut builder, vec![Operation::Add], vec![], vec![first]);
    let b = block_ref(&mut builder, vec![Operation::Add], vec![], vec![second]);
    assert_eq!(a, b);
}

#[test]
fn test_trailing_noop_blocks_keep_compatible_source_occurrences() {
    let mut builder = new_builder();
    let emitted = vec![Operation::Push(felt(7)), Operation::Emit, Operation::Drop];
    let block = block_ref(&mut builder, emitted.clone(), vec![], vec![]);
    let var = var_row(&mut builder, "result", 0);
    let mut trailing = emitted;
    trailing.push(Operation::Noop);
    let noop_block = block_ref(&mut builder, trailing.clone(), vec![], vec![var_at(var, 3)]);
    assert_ne!(block, noop_block);
    assert_eq!(builder.mast_root(block), builder.mast_root(noop_block));

    let asm_op = test_asm_op(&mut builder, "test", "call");
    let call = call_ref(&mut builder, block, asm_op);
    let noop_call = call_ref(&mut builder, noop_block, asm_op);
    assert_ne!(call, noop_call);
    assert_eq!(builder.mast_root(call), builder.mast_root(noop_call));

    let duplicate = block_ref(&mut builder, trailing, vec![], vec![]);
    assert_eq!(noop_block, duplicate);

    root(&mut builder, call);
    root(&mut builder, noop_call);
    let built = build(builder);
    let NodeKind::Block(batches) = built.kind(built.id(block)) else {
        panic!("expected a basic block")
    };
    let NodeKind::Block(noop_batches) = built.kind(built.id(noop_block)) else {
        panic!("expected a basic block")
    };
    assert_eq!(raw_operations(batches).len(), 3);
    assert_eq!(raw_operations(noop_batches).len(), 4);
    let source = built.sources_of(built.id(block))[0];
    assert_eq!((source.op_start, source.op_end), (0, 3));
    let sources = built.sources_of(built.id(noop_block));
    let noop_source = sources.iter().find(|s| !s.debug_vars.is_empty()).unwrap();
    assert_eq!((noop_source.op_start, noop_source.op_end), (0, 4));
    assert_eq!(noop_source.debug_vars.len(), 1);
    assert_eq!(noop_source.debug_vars[0].op_idx, 3);
}

#[test]
fn test_noop_layout_key_includes_padding_boundaries() {
    let mut first_ops = vec![Operation::Push(felt(7)); 8];
    first_ops.extend([Operation::Noop, Operation::Noop]);
    let mut second_ops = vec![Operation::Push(felt(7)); 7];
    second_ops.extend([Operation::Noop, Operation::Push(felt(7)), Operation::Noop]);
    let first_batches = batch_operations(&first_ops);
    let second_batches = batch_operations(&second_ops);
    assert_eq!(digest_of_batches(&first_batches), digest_of_batches(&second_batches));
    assert_eq!(raw_operations(&first_batches).len(), raw_operations(&second_batches).len());
    let first_mapping: Vec<u64> =
        (0..=first_ops.len() as u32).map(|i| adjust_index(&first_batches, i)).collect();
    let second_mapping: Vec<u64> =
        (0..=first_ops.len() as u32).map(|i| adjust_index(&second_batches, i)).collect();
    assert_ne!(first_mapping, second_mapping);

    let mut builder = new_builder();
    let first_var = var_row(&mut builder, "first", 0);
    let second_var = var_row(&mut builder, "second", 0);
    let first = block_ref(&mut builder, first_ops, vec![], vec![var_at(first_var, 7)]);
    let second = block_ref(&mut builder, second_ops, vec![], vec![var_at(second_var, 7)]);
    assert_ne!(first, second);
    root(&mut builder, first);
    root(&mut builder, second);
    let built = build(builder);
    let first_source = built.sources_of(built.id(first))[0];
    let second_source = built.sources_of(built.id(second))[0];
    assert_eq!((first_source.op_start, first_source.op_end), (0, 11));
    assert_eq!((second_source.op_start, second_source.op_end), (0, 10));
    assert_eq!(first_source.debug_vars[0].op_idx, 8);
    assert_eq!(second_source.debug_vars[0].op_idx, 7);
}

#[test]
fn test_error_code_bearing_basic_blocks_do_not_dedup_by_digest_only() {
    let makers: [fn(Felt) -> Operation; 3] =
        [Operation::Assert, Operation::U32assert2, Operation::MpVerify];
    for make_op in makers {
        let mut builder = new_builder();
        let first = plain_block(&mut builder, make_op(felt(1)));
        let duplicate = plain_block(&mut builder, make_op(felt(1)));
        let second = plain_block(&mut builder, make_op(felt(2)));
        assert_eq!(first, duplicate);
        assert_ne!(first, second);
        root(&mut builder, first);
        root(&mut builder, second);
        let built = build(builder);
        let code = |id: MastNodeId| {
            let NodeKind::Block(batches) = built.kind(id) else {
                panic!("expected a basic block")
            };
            match raw_operations(batches)[0] {
                Operation::Assert(code)
                | Operation::U32assert2(code)
                | Operation::MpVerify(code) => code,
                other => panic!("unexpected operation: {other:?}"),
            }
        };
        assert_ne!(built.id(first), built.id(second));
        assert_eq!(built.digest(built.id(first)), built.digest(built.id(second)));
        assert_eq!(code(built.id(first)), felt(1));
        assert_eq!(code(built.id(second)), felt(2));
    }
}

#[test]
fn test_control_nodes_include_child_error_code_keys() {
    let mut builder = new_builder();
    let first = plain_block(&mut builder, Operation::Assert(felt(1)));
    let second = plain_block(&mut builder, Operation::Assert(felt(2)));
    assert_eq!(builder.mast_root(first), builder.mast_root(second));
    let asm_op = test_asm_op(&mut builder, "test", "call");
    let first_call = call_ref(&mut builder, first, asm_op);
    let second_call = call_ref(&mut builder, second, asm_op);
    assert_ne!(first_call, second_call);
}

#[test]
fn test_build_assigns_final_debug_var_ids_to_used_refs() {
    let mut builder = new_builder();
    let _unused = var_row(&mut builder, "unused", 0);
    let used = var_row(&mut builder, "used", 1);
    let block = block_ref(&mut builder, vec![Operation::Add], vec![], vec![used]);
    root(&mut builder, block);
    let built = build(builder);
    assert_eq!(built.variables(built.id(block)), vec!["used"]);
}

#[test]
fn test_build_preserves_function_debug_info_and_references() {
    let mut builder = new_builder();
    let block = plain_block(&mut builder, Operation::Add);
    root(&mut builder, block);
    let source_ref = latest(&builder, block).source_ref;
    let mast_root = builder.mast_root(block);
    let dead = plain_block(&mut builder, Operation::Mul);
    let dead_source_ref = latest(&builder, dead).source_ref;
    let dead_root = builder.mast_root(dead);

    let tables = &mut builder.registry.tables;
    let file_idx = tables.add_file("file:///src/debug-test.masm".to_string()).unwrap();
    let location = DebugLocation { file_idx, start: 4, end: 9 };
    let location_idx = tables.add_location(location).unwrap();
    let function_name = name(&mut builder, "debug_test::entry");
    let linkage_name = name(&mut builder, "entry");
    let dead_name = name(&mut builder, "debug_test::dead");
    let struct_name = name(&mut builder, "Wrapper");
    let field_name = name(&mut builder, "inner");
    let section = &mut builder.registry.tables.section;
    let pointer =
        section.add_type(DebugTypeInfo::Pointer { pointee_type_idx: 1 }).unwrap();
    let primitive =
        section.add_type(DebugTypeInfo::Primitive(DebugPrimitiveType::U32)).unwrap();
    assert_eq!(primitive, 1);
    let wrapper = section
        .add_type(DebugTypeInfo::Struct {
            name_idx: struct_name,
            size: 4,
            fields: vec![DebugFieldInfo { name_idx: field_name, type_idx: pointer, offset: 0 }],
        })
        .unwrap();
    let signature = section
        .add_type(DebugTypeInfo::Function {
            return_type_idx: Some(wrapper),
            param_type_indices: vec![wrapper],
        })
        .unwrap();
    builder.graph.add_function(FunctionInfo {
        source_node: Some(source_ref.0),
        linkage_name_idx: Some(linkage_name),
        file_idx,
        type_idx: Some(signature),
        ..function(function_name, mast_root)
    });
    builder.graph.add_function(FunctionInfo {
        source_node: Some(dead_source_ref.0),
        file_idx,
        line: 2,
        type_idx: Some(signature),
        ..function(dead_name, dead_root)
    });
    builder.graph.nodes[source_ref.0 as usize].inline_calls.push(DebugSourceInlineCall {
        op_idx: 0,
        callee_idx: 0,
        loc_idx: location_idx,
    });
    builder.register_error(felt(7), "debug failure".to_string()).unwrap();

    let built = build(builder);
    let source_id = built.source_id(source_ref);
    let functions = &built.built.functions;
    let tables = &built.built.tables;
    let function = functions.iter().find(|f| f.mast_root == mast_root).unwrap();

    assert_eq!(functions.len(), 2);
    assert_eq!(function.source_node, Some(source_id));
    assert_eq!(function.mast_root, mast_root);
    assert_eq!(built.sources()[source_id as usize].exec_node, built.id(block).0);
    assert_eq!(built.name(function.name_idx), "debug_test::entry");
    assert_eq!(built.name(function.linkage_name_idx.unwrap()), "entry");
    let final_location = tables.locations[location_idx as usize];
    assert_eq!(function.file_idx, final_location.file_idx);
    assert_eq!(
        built.name(tables.files[function.file_idx as usize]),
        "file:///src/debug-test.masm"
    );
    assert_eq!((final_location.start, final_location.end), (4, 9));
    assert_eq!(tables.errors.len(), 1);
    assert_eq!(tables.errors[0].0, 7);
    assert_eq!(built.name(tables.errors[0].1), "debug failure");

    let dead_function = functions.iter().find(|f| f.mast_root == dead_root).unwrap();
    assert_eq!(dead_function.source_node, None);
    assert_eq!(dead_function.mast_root, dead_root);

    let DebugTypeInfo::Function { return_type_idx: Some(result), param_type_indices } =
        built.ty(function.type_idx.unwrap())
    else {
        panic!("expected a function type");
    };
    assert_eq!(param_type_indices, &vec![*result]);
    let DebugTypeInfo::Struct { name_idx, fields, .. } = built.ty(*result) else {
        panic!("expected a struct type");
    };
    assert_eq!(built.name(*name_idx), "Wrapper");
    assert_eq!(built.name(fields[0].name_idx), "inner");
    let DebugTypeInfo::Pointer { pointee_type_idx } = built.ty(fields[0].type_idx) else {
        panic!("expected a pointer type");
    };
    assert!(matches!(
        built.ty(*pointee_type_idx),
        DebugTypeInfo::Primitive(DebugPrimitiveType::U32)
    ));

    let inline_call = built.sources()[source_id as usize].inline_calls[0];
    assert_eq!(inline_call.op_idx, 0);
    assert_eq!(&functions[inline_call.callee_idx as usize], function);
    assert_eq!(inline_call.loc_idx, location_idx);
    let place = tables.locations[inline_call.loc_idx as usize];
    assert_eq!(place, final_location);
}

#[test]
fn test_ensure_block_keeps_different_asm_ops_distinct() {
    let mut builder = new_builder();
    let asm_a = asm_row(&mut builder, "ctx_a", "add");
    let asm_b = asm_row(&mut builder, "ctx_b", "add");
    let a = block_ref(&mut builder, vec![Operation::Add], vec![asm_a], vec![]);
    let b = block_ref(&mut builder, vec![Operation::Add], vec![asm_b], vec![]);
    assert_eq!(a, b);
    root(&mut builder, a);
    let built = build(builder);
    assert!(built.contexts(built.id(a)).contains(&"ctx_a".to_string()));
    assert_eq!(built.id(a), built.id(b));
}

#[test]
fn test_source_graph_distinguishes_same_exec_asm_op_occurrences() {
    let mut builder = new_builder();
    let asm_a = asm_row(&mut builder, "ctx_a", "add");
    let asm_b = asm_row(&mut builder, "ctx_b", "add");
    let a = block_ref(&mut builder, vec![Operation::Add], vec![asm_a], vec![]);
    let b = block_ref(&mut builder, vec![Operation::Add], vec![asm_b], vec![]);
    assert_eq!(a, b);
    root(&mut builder, a);
    let built = build(builder);
    let found: BTreeSet<String> = built.contexts(built.id(a)).into_iter().collect();
    assert_eq!(built.id(a), built.id(b));
    assert_eq!(built.forest.num_nodes(), 1);
    assert_eq!(built.built.graph.roots.len(), 1);
    assert_eq!(found, BTreeSet::from(["ctx_a".to_string(), "ctx_b".to_string()]));
}

#[test]
fn test_source_graph_preserves_repeated_same_exec_child_occurrences() {
    let mut builder = new_builder();
    let asm_a = asm_row(&mut builder, "ctx_a", "add");
    let asm_b = asm_row(&mut builder, "ctx_b", "add");
    let a = block_ref(&mut builder, vec![Operation::Add], vec![asm_a], vec![]);
    let b = block_ref(&mut builder, vec![Operation::Add], vec![asm_b], vec![]);
    assert_eq!(a, b);
    let asm_op = test_asm_op(&mut builder, "split", "if.true");
    let split = split_ref(&mut builder, [a, b], asm_op);
    root(&mut builder, split);
    let built = build(builder);
    let top = &built.sources()[built.built.graph.roots[0] as usize];
    let contexts: Vec<&str> = top
        .children
        .iter()
        .map(|c| built.name(built.sources()[*c as usize].asm_ops[0].context_name_idx))
        .collect();
    assert_eq!(contexts, vec!["ctx_a", "ctx_b"]);
}

#[test]
fn test_source_graph_reuses_source_occurrence_for_duplicate_child_refs() {
    let mut builder = new_builder();
    let block = plain_block(&mut builder, Operation::Add);
    let asm_op = test_asm_op(&mut builder, "split", "if.true");
    let split = split_ref(&mut builder, [block, block], asm_op);
    root(&mut builder, split);
    let built = build(builder);
    let children = &built.sources()[built.built.graph.roots[0] as usize].children;
    assert_eq!(children.len(), 2);
    assert_eq!(children[0], children[1]);
}

#[test]
fn test_non_block_nodes_keep_different_asm_ops_distinct() {
    let mut builder = new_builder();
    let callee = plain_block(&mut builder, Operation::Add);
    let asm_a = test_asm_op(&mut builder, "ctx_a", "call.foo");
    let asm_b = test_asm_op(&mut builder, "ctx_b", "call.foo");
    let a = call_ref(&mut builder, callee, asm_a);
    let b = call_ref(&mut builder, callee, asm_b);
    assert_eq!(a, b);
    root(&mut builder, a);
    let built = build(builder);
    assert!(built.contexts(built.id(a)).contains(&"ctx_a".to_string()));
    assert_eq!(built.id(a), built.id(b));
}

#[test]
fn test_source_graph_distinguishes_same_digest_alias_roots() {
    let mut builder = new_builder();
    let asm_a = asm_row(&mut builder, "alias_a", "add");
    let asm_b = asm_row(&mut builder, "alias_b", "add");
    let a = block_ref(&mut builder, vec![Operation::Add], vec![asm_a], vec![]);
    let b = block_ref(&mut builder, vec![Operation::Add], vec![asm_b], vec![]);
    root(&mut builder, a);
    root(&mut builder, b);
    let built = build(builder);
    let contexts: BTreeSet<&str> = built
        .built
        .graph
        .roots
        .iter()
        .flat_map(|s| built.sources()[*s as usize].asm_ops.iter())
        .map(|row| built.name(row.context_name_idx))
        .collect();
    assert_eq!(built.id(a), built.id(b));
    assert_eq!(built.forest.num_nodes(), 1);
    assert_eq!(built.built.graph.roots.len(), 2);
    assert_eq!(contexts, BTreeSet::from(["alias_a", "alias_b"]));
}

// STATIC LINKING
// ================================================================================================

#[test]
fn test_statically_linked_nodes_preserve_metadata_in_dedup() {
    let mut forest = MastForest::new();
    let id = forest.add_block(&vec![Operation::Add]).unwrap();
    forest.make_root(id);
    let libraries = one_library(&forest, None);
    let mut builder = new_builder();
    let copied = builder
        .ensure_external_link_with_source_ref(&libraries, no_hint(), forest.node_digest(id))
        .unwrap();
    let var = var_row(&mut builder, "y", 1);
    let asm_rows = asm_row(&mut builder, "local_ctx", "add");
    let local = block_ref(&mut builder, vec![Operation::Add], vec![asm_rows], vec![var]);
    assert_eq!(copied, local);
    root(&mut builder, copied);
    let built = build(builder);
    let id = built.id(copied);
    assert_eq!(id, built.id(local));
    assert!(built.contexts(id).contains(&"local_ctx".to_string()));
    assert!(built.variables(id).contains(&"y".to_string()));
}

#[test]
fn test_statically_linked_padded_block_dedups_with_equivalent_local_block() {
    let mut source_builder = new_builder();
    let ops = vec![
        Operation::Push(felt(1)),
        Operation::Drop,
        Operation::Drop,
        Operation::Drop,
        Operation::Drop,
        Operation::Drop,
        Operation::Drop,
        Operation::Push(felt(2)),
        Operation::Push(felt(3)),
    ];
    let asm_rows = asm_row(&mut source_builder, "padded_ctx", "push.3");
    let var = var_row(&mut source_builder, "padded_var", 0);
    let block =
        block_ref(&mut source_builder, ops.clone(), vec![asm_at(asm_rows, 8)], vec![var_at(var, 8)]);
    root(&mut source_builder, block);
    let library = build(source_builder);
    let id = library.id(block);
    let source_root = library.built.graph.roots[0];
    let padded_idx = library.sources()[source_root as usize].asm_ops[0].op_idx;
    assert_eq!(library.sources()[source_root as usize].debug_vars[0].op_idx, padded_idx);

    let mut builder = new_builder();
    let libraries = one_library(&library.forest, Some(library.package()));
    let hint = LinkHint {
        commitment: Some(library.forest.commitment()),
        root: Some(id),
        source: Some(source_root),
    };
    let copied = builder
        .ensure_external_link_with_source_ref(&libraries, hint, library.digest(id))
        .unwrap();
    let local_asm = asm_row(&mut builder, "padded_ctx", "push.3");
    let local = block_ref(&mut builder, ops, vec![asm_at(local_asm, 8)], vec![]);
    assert_eq!(copied, local);

    root(&mut builder, copied);
    let built = build(builder);
    let sources = built.sources_of(built.id(copied));
    assert!(sources.iter().any(|s| s.asm_ops.iter().any(|row| row.op_idx == padded_idx
        && built.name(row.context_name_idx) == "padded_ctx")));
    assert!(sources.iter().any(|s| s.debug_vars.iter().any(|row| row.op_idx == padded_idx
        && built.name(row.name_idx) == "padded_var")));
}

#[test]
fn test_statically_linked_debug_variable_type_is_remapped() {
    let mut source_builder = new_builder();
    let section = &mut source_builder.registry.tables.section;
    let static_type =
        section.add_type(DebugTypeInfo::Primitive(DebugPrimitiveType::U32)).unwrap();
    let mut var = var_row(&mut source_builder, "static_var", 0);
    var.type_id = Some(static_type);
    let block = block_ref(&mut source_builder, vec![Operation::Add], vec![], vec![var]);
    root(&mut source_builder, block);
    let library = build(source_builder);
    let id = library.id(block);
    let source_root = library.built.graph.roots[0];

    let mut builder = new_builder();
    let section = &mut builder.registry.tables.section;
    let local = section.add_type(DebugTypeInfo::Primitive(DebugPrimitiveType::U8)).unwrap();
    assert_eq!(local, 0);
    let libraries = one_library(&library.forest, Some(library.package()));
    let hint = LinkHint {
        commitment: Some(library.forest.commitment()),
        root: Some(id),
        source: Some(source_root),
    };
    let linked_ref = builder
        .ensure_external_link_with_source_ref(&libraries, hint, library.digest(id))
        .unwrap();
    root(&mut builder, linked_ref);

    let built = build(builder);
    let source = &built.sources()[built.built.graph.roots[0] as usize];
    let linked_type = source.debug_vars[0].type_id.unwrap();
    assert_eq!(linked_type, 1);
    assert!(matches!(
        built.ty(linked_type),
        DebugTypeInfo::Primitive(DebugPrimitiveType::U32)
    ));
}

#[test]
fn test_statically_linked_package_source_range_is_preserved() {
    let mut source_builder = new_builder();
    let ops = vec![
        Operation::Push(felt(1)),
        Operation::Drop,
        Operation::Drop,
        Operation::Drop,
        Operation::Push(felt(2)),
    ];
    let asm_rows = asm_row(&mut source_builder, "partial_ctx", "push.2");
    let block = block_ref(&mut source_builder, ops, vec![asm_at(asm_rows, 4)], vec![]);
    root(&mut source_builder, block);
    let frame_name = name(&mut source_builder, "partial_frame");
    let library = build(source_builder);
    let id = library.id(block);
    let source_root = library.built.graph.roots[0];
    let start = library.sources()[source_root as usize].asm_ops[0].op_idx;
    let NodeKind::Block(batches) = library.kind(id) else { panic!("expected a basic block") };
    let padded: u32 = batches.iter().map(|batch| batch.ops.len() as u32).sum();
    let mut package = library.package();
    package.nodes[source_root as usize].op_start = start;
    package.nodes[source_root as usize].op_end = start + 1;
    package.functions.push(FunctionInfo {
        source_node: Some(source_root),
        ..function(frame_name, library.digest(id))
    });
    package.nodes[source_root as usize].call_frames.push(DebugSourceCallFrame {
        op_start: start,
        op_end: padded,
        function_idx: 0,
        inherited_inline_calls: 0,
    });

    let mut builder = new_builder();
    let libraries = one_library(&library.forest, Some(package));
    let hint = LinkHint {
        commitment: Some(library.forest.commitment()),
        root: Some(id),
        source: Some(source_root),
    };
    let copied = builder
        .ensure_external_link_with_source_ref(&libraries, hint, library.digest(id))
        .unwrap();
    assert!(builder.graph.functions[0].source_node.is_some());
    root(&mut builder, copied);
    let built = build(builder);
    let sources = built.sources_of(built.id(copied));
    let linked = sources
        .iter()
        .find(|s| s.asm_ops.iter().any(|row| built.name(row.context_name_idx) == "partial_ctx"))
        .unwrap();
    assert_eq!(linked.op_start, start);
    assert_eq!(linked.op_end, start + 1);
    let frame = linked.call_frames[0];
    assert_eq!(frame.op_start, start);
    assert_eq!(frame.op_end, padded);
    assert_eq!(frame.function_idx, 0);
}

#[test]
fn test_static_link_rejects_package_debug_child_exec_mismatch() {
    let mut source_builder = new_builder();
    let left = plain_block(&mut source_builder, Operation::Add);
    let right = plain_block(&mut source_builder, Operation::Mul);
    let asm_op = test_asm_op(&mut source_builder, "split_ctx", "if.true");
    let split = split_ref(&mut source_builder, [left, right], asm_op);
    root(&mut source_builder, split);
    let library = build(source_builder);
    let id = library.id(split);
    let source_root = library.built.graph.roots[0];
    let mut package = library.package();
    package.nodes[source_root as usize].children.swap(0, 1);

    let mut builder = new_builder();
    let libraries = one_library(&library.forest, Some(package));
    let hint = LinkHint {
        commitment: Some(library.forest.commitment()),
        root: Some(id),
        source: Some(source_root),
    };
    let error = builder
        .ensure_external_link_with_source_ref(&libraries, hint, library.digest(id))
        .unwrap_err();
    assert_eq!(error, StaticImportError::ChildMismatch { source: source_root, index: 0 });
}

fn alias_library() -> (Built, MastNodeRef) {
    let mut source_builder = new_builder();
    let asm_a = asm_row(&mut source_builder, "alias_a", "add");
    let asm_b = asm_row(&mut source_builder, "alias_b", "add");
    let a = block_ref(&mut source_builder, vec![Operation::Add], vec![asm_a], vec![]);
    let b = block_ref(&mut source_builder, vec![Operation::Add], vec![asm_b], vec![]);
    assert_eq!(a, b);
    root(&mut source_builder, a);
    root(&mut source_builder, b);
    (build(source_builder), a)
}

#[test]
fn test_static_link_exact_node_preserves_alias_metadata() {
    let (library, alias) = alias_library();
    let id = library.id(alias);
    let mut builder = new_builder();
    let copied = builder.copy_forest_subtree_ref(&library.forest, id).unwrap();
    root(&mut builder, copied);
    let built = build(builder);
    assert!(built.contexts(built.id(copied)).is_empty());
}

#[test]
fn test_static_link_by_digest_imports_only_selected_alias() {
    let (library, alias) = alias_library();
    let libraries = one_library(&library.forest, None);
    let mut builder = new_builder();
    let linked = builder
        .ensure_external_link_with_source_ref(
            &libraries,
            no_hint(),
            library.digest(library.id(alias)),
        )
        .unwrap();
    root(&mut builder, linked);
    let built = build(builder);
    assert_eq!(built.forest.num_nodes(), 1);
    assert_eq!(built.id(linked), MastNodeId(0));
}

fn single_library(context: &str) -> (Built, MastNodeId) {
    let mut source_builder = new_builder();
    let asm_rows = asm_row(&mut source_builder, context, "add");
    let block = block_ref(&mut source_builder, vec![Operation::Add], vec![asm_rows], vec![]);
    root(&mut source_builder, block);
    let library = build(source_builder);
    let id = library.id(block);
    (library, id)
}

fn two_libraries(
    a: &Built,
    b: &Built,
    commitments: [Word; 2],
) -> StaticLibraries {
    let map: Vec<(MastNodeId, MastNodeId)> = a.forest.roots.iter().map(|r| (*r, *r)).collect();
    StaticLibraries {
        merged: a.forest.clone(),
        roots: StaticRoots {
            libraries: commitments.iter().map(|c| LibraryIdentity::new(*c)).collect(),
            root_maps: vec![map.clone(), map],
        },
        forests: vec![a.forest.clone(), b.forest.clone()],
        debug_infos: vec![Some(a.package()), Some(b.package())],
    }
}

#[test]
fn test_static_link_ambiguous_same_commitment_source_root_drops_source_metadata() {
    let (a, root_a) = single_library("source_a");
    let (b, root_b) = single_library("source_b");
    assert_eq!(root_a, root_b);
    assert_eq!(a.forest.commitment(), b.forest.commitment());
    assert_eq!(a.digest(root_a), b.digest(root_b));
    let mut builder = new_builder();
    let commitment = a.forest.commitment();
    let libraries = two_libraries(&a, &b, [commitment, commitment]);
    let hint = LinkHint { commitment: Some(commitment), root: Some(root_a), source: None };
    let linked = builder
        .ensure_external_link_with_source_ref(&libraries, hint, a.digest(root_a))
        .unwrap();
    assert!(!builder.nodes[linked.0 as usize].kind.is_external());
    root(&mut builder, linked);
    let built = build(builder);
    assert!(built.contexts(built.id(linked)).is_empty());
}

#[test]
fn test_static_link_direct_forest_identity_uses_full_commitment() {
    let (a, root_a) = single_library("source_a");
    let (mut b, root_b) = single_library("source_b");
    b.forest.advice_map.insert(test_word(9), vec![felt(1)]);

    assert_eq!(a.forest.interface_commitment(), b.forest.interface_commitment());
    assert_ne!(a.forest.commitment(), b.forest.commitment());
    assert_eq!(a.digest(root_a), b.digest(root_b));

    let mut builder = new_builder();
    let commitments = [a.forest.commitment(), b.forest.commitment()];
    let libraries = two_libraries(&a, &b, commitments);
    let hint = LinkHint {
        commitment: Some(b.forest.commitment()),
        root: Some(root_b),
        source: Some(b.built.graph.roots[0]),
    };
    let linked = builder
        .ensure_external_link_with_source_ref(&libraries, hint, b.digest(root_b))
        .unwrap();
    root(&mut builder, linked);
    let built = build(builder);
    assert_eq!(built.contexts(built.id(linked)), vec!["source_b"]);
}

#[test]
fn test_static_link_with_source_root_preserves_selected_alias_metadata() {
    let (library, alias) = alias_library();
    let id = library.id(alias);
    let source_root = library.built.graph.roots[1];
    let mut builder = new_builder();
    let libraries = one_library(&library.forest, Some(library.package()));
    let hint = LinkHint {
        commitment: Some(library.forest.commitment()),
        root: Some(id),
        source: Some(source_root),
    };
    let linked = builder
        .ensure_external_link_with_source_ref(&libraries, hint, library.digest(id))
        .unwrap();
    root(&mut builder, linked);
    let built = build(builder);
    let source = &built.sources()[built.built.graph.roots[0] as usize];
    assert_eq!(source.exec_node, built.id(linked).0);
    assert_eq!(built.name(source.asm_ops[0].context_name_idx), "alias_b");
}

#[test]
fn test_static_link_preserves_repeated_exact_child_occurrences() {
    let mut source_builder = new_builder();
    let asm_rows = asm_row(&mut source_builder, "static", "add");
    let child =
        block_use(&mut source_builder, vec![Operation::Add], vec![asm_rows], vec![], vec![], vec![]);
    let asm_op = test_asm_op(&mut source_builder, "static", "if.true");
    let top = source_builder.ensure_split_node_use(child, child, asm_op, vec![]).unwrap();
    source_builder.record_procedure_root_use(top);
    let library = build(source_builder);
    let id = library.id(top.node_ref);
    let source_root = library.source_id(top.source_ref);

    let mut builder = new_builder();
    let libraries = one_library(&library.forest, Some(library.package()));
    let local = asm_row(&mut builder, "local", "add");
    block_use(&mut builder, vec![Operation::Add], vec![local], vec![], vec![], vec![]);
    let hint = LinkHint {
        commitment: Some(library.forest.commitment()),
        root: Some(id),
        source: Some(source_root),
    };
    let linked = builder
        .ensure_external_link_with_source_ref(&libraries, hint, library.digest(id))
        .unwrap();
    root(&mut builder, linked);
    let built = build(builder);
    let top = &built.sources()[built.built.graph.roots[0] as usize];
    assert_eq!(top.children.len(), 2);
    for child in &top.children {
        let row = built.sources()[*child as usize].asm_ops[0];
        assert_eq!(built.name(row.context_name_idx), "static");
    }
}

#[test]
fn links_without_a_usable_source_node_are_refused() {
    let (library, alias) = alias_library();
    let id = library.id(alias);
    let commitment = Some(library.forest.commitment());
    let digest = library.digest(id);
    let mut builder = new_builder();
    let libraries = one_library(&library.forest, Some(library.package()));
    let plan = |source: Option<u32>| {
        libraries.plan_link(LinkHint { commitment, root: Some(id), source }, digest)
    };
    assert_eq!(plan(None), Err(StaticImportError::AmbiguousSourceRoot { exec_node: id.0 }));
    assert_eq!(plan(Some(9)), Err(StaticImportError::MissingSourceNode { source: 9 }));
    assert_eq!(plan(Some(1)), Ok(LinkPlan::Package { library: 0, source: 1 }));
    assert_eq!(
        libraries.plan_link(no_hint(), digest),
        Ok(LinkPlan::Forest { root_id: id }),
    );
    assert_eq!(libraries.plan_link(no_hint(), test_word(3)), Ok(LinkPlan::Elsewhere));
}

#[test]
fn an_empty_block_is_refused() {
    let mut builder = new_builder();
    assert_eq!(
        builder.ensure_block_use(&vec![], vec![], vec![], vec![], vec![]),
        Err(BuildError::EmptyBasicBlock),
    );
}

#[test]
fn merged_blocks_keep_the_ranges_and_functions_of_their_parts() {
    let mut builder = new_builder();
    let first = asm_row(&mut builder, "merge::first", "add");
    let second = asm_row(&mut builder, "merge::second", "mul");
    let name_idx = name(&mut builder, "merge::f");
    builder.graph.add_function(function(name_idx, test_word(1)));
    let a = block_use(&mut builder, vec![Operation::Add], vec![first], vec![], vec![], vec![0]);
    let b = block_use(&mut builder, vec![Operation::Mul], vec![second], vec![], vec![], vec![]);
    let count = builder.graph.nodes.len();
    let merged = builder.merge_basic_block_uses(&vec![a, b]).unwrap();
    assert_eq!(merged.len(), 1);
    assert_eq!(builder.graph.nodes.len(), count + 3);
    let whole = &builder.graph.nodes[merged[0].source_ref.0 as usize];
    assert_eq!((whole.op_start, whole.op_end), (0, 2));
    assert_eq!(builder.graph.functions[0].source_node, Some(merged[0].source_ref.0));
    let parts = &builder.graph.nodes[count + 1..];
    assert_eq!((parts[0].op_start, parts[0].op_end), (0, 1));
    assert_eq!(parts[0].asm_ops[0].context_name_idx, first.context_name_idx);
    assert_eq!((parts[1].op_start, parts[1].op_end), (1, 2));
    assert_eq!(parts[1].asm_ops[0].context_name_idx, second.context_name_idx);
    assert!(parts.iter().all(|part| part.exec_node == merged[0].node_ref.0));
}

#[test]
fn stretches_of_blocks_are_merged_as_a_whole() {
    let mut builder = new_builder();
    let blocks: Vec<MastNodeUse> = [Operation::Add, Operation::Mul, Operation::Drop]
        .into_iter()
        .map(|op| block_use(&mut builder, vec![op], vec![], vec![], vec![], vec![]))
        .collect();
    let asm_op = test_asm_op(&mut builder, "m", "dynexec");
    let other = builder.ensure_dyn_node_use(false, asm_op, vec![]).unwrap();
    let list = vec![blocks[0], blocks[1], other, blocks[2], blocks[0]];
    let merged = builder.merge_contiguous_basic_block_uses(&list).unwrap();
    assert_eq!(merged.len(), 3);
    assert_eq!(merged[1], other);
    assert_eq!(
        builder.mast_root(merged[0].node_ref),
        block_digest(vec![Operation::Add, Operation::Mul])
    );
    assert_eq!(
        builder.mast_root(merged[2].node_ref),
        block_digest(vec![Operation::Drop, Operation::Add])
    );
}

#[test]
fn tables_are_imported_behind_those_that_are_there() {
    let mut source = new_builder();
    let shared = name(&mut source, "shared");
    let own = name(&mut source, "own");
    let section = &mut source.registry.tables.section;
    let field = DebugFieldInfo { name_idx: own, type_idx: 1, offset: 0 };
    section
        .add_type(DebugTypeInfo::Struct { name_idx: shared, size: 4, fields: vec![field] })
        .unwrap();
    section.add_type(DebugTypeInfo::Primitive(DebugPrimitiveType::U32)).unwrap();
    source.register_error(felt(3), "oops".to_string()).unwrap();
    let row = FunctionInfo { type_idx: Some(0), ..function(own, test_word(5)) };
    source.graph.add_function(row);
    let library = build(source);

    let mut builder = new_builder();
    let taken = name(&mut builder, "shared");
    let section = &mut builder.registry.tables.section;
    section.add_type(DebugTypeInfo::Unknown).unwrap();
    builder.register_error(felt(3), "earlier".to_string()).unwrap();
    let map = builder.import_static_debug_tables(0, &library.package()).unwrap();
    assert_eq!(map.strings[shared as usize], Some(taken));
    assert_eq!(map.types, vec![Some(1), Some(2)]);
    assert_eq!(map.functions, vec![Some(0)]);
    assert_eq!(map.locations, vec![Some(0), Some(1)]);
    let tables = &builder.registry.tables;
    let DebugTypeInfo::Struct { name_idx, fields, .. } = &tables.section.types[1] else {
        panic!("expected a struct");
    };
    assert_eq!(*name_idx, taken);
    assert_eq!(fields[0].type_idx, 2);
    assert_eq!(tables.section.strings[fields[0].name_idx as usize], "own");
    assert_eq!(tables.errors.len(), 1);
    assert_eq!(tables.section.strings[tables.errors[0].1 as usize], "earlier");
    let row = builder.graph.functions[0];
    assert_eq!(row.type_idx, Some(1));
    assert_eq!(row.mast_root, test_word(5));
    assert_eq!(row.source_node, None);
}

#[test]
fn entries_over_missing_entries_are_refused() {
    let mut builder = new_builder();
    let section = &mut builder.registry.tables.section;
    section.add_type(DebugTypeInfo::Pointer { pointee_type_idx: 7 }).unwrap();
    assert!(matches!(builder.build(), Err(MastForestBuilderError::MissingEntry)));

    let mut builder = new_builder();
    let package = PackageDebugInfo {
        nodes: vec![],
        roots: vec![],
        functions: vec![function(0, test_word(1))],
        tables: DebugTables::new(),
    };
    assert!(matches!(
        builder.import_static_debug_tables(0, &package),
        Err(DebugTypeError::MissingEntry)
    ));
    assert!(builder.registry.imports.is_empty());
}

#[test]
fn tables_of_a_library_are_imported_once() {
    let mut source_builder = new_builder();
    let asm_a = asm_row(&mut source_builder, "first_ctx", "add");
    let asm_b = asm_row(&mut source_builder, "second_ctx", "mul");
    let a = block_ref(&mut source_builder, vec![Operation::Add], vec![asm_a], vec![]);
    let b = block_ref(&mut source_builder, vec![Operation::Mul], vec![asm_b], vec![]);
    root(&mut source_builder, a);
    root(&mut source_builder, b);
    let section = &mut source_builder.registry.tables.section;
    section.add_type(DebugTypeInfo::Primitive(DebugPrimitiveType::U32)).unwrap();
    let library = build(source_builder);
    let libraries = one_library(&library.forest, Some(library.package()));
    let hint = |id: MastNodeId, source: u32| LinkHint {
        commitment: Some(library.forest.commitment()),
        root: Some(id),
        source: Some(source),
    };

    let mut builder = new_builder();
    assert!(builder.registry.imports.is_empty());
    let types = builder.registry.tables.section.types.len();
    let first = library.id(a);
    let roots = &library.built.graph.roots;
    let linked_a = builder
        .ensure_external_link_with_source_ref(&libraries, hint(first, roots[0]), library.digest(first))
        .unwrap();
    let slot = builder.registry.imports[0].clone();
    assert!(slot.is_some());
    assert!(builder.procedure_root_refs.is_empty());
    assert!(builder.graph.roots.is_empty());
    assert_eq!(builder.nodes.len(), 1);
    assert_eq!(builder.registry.tables.section.types.len(), types + 1);
    let strings = builder.registry.tables.section.strings.clone();
    let second = library.id(b);
    let linked_b = builder
        .ensure_external_link_with_source_ref(&libraries, hint(second, roots[1]), library.digest(second))
        .unwrap();
    assert_eq!(builder.registry.imports, vec![slot]);
    assert_eq!(builder.registry.tables.section.types.len(), types + 1);
    assert_eq!(builder.registry.tables.section.strings, strings);
    root(&mut builder, linked_a);
    root(&mut builder, linked_b);
    let built = build(builder);
    assert_eq!(built.contexts(built.id(linked_a)), vec!["first_ctx"]);
    assert_eq!(built.contexts(built.id(linked_b)), vec!["second_ctx"]);
}

#[test]
fn the_first_fault_on_the_way_is_reported() {
    let mut source_builder = new_builder();
    let left = plain_block(&mut source_builder, Operation::Add);
    let right = plain_block(&mut source_builder, Operation::Mul);
    let asm_op = test_asm_op(&mut source_builder, "split_ctx", "if.true");
    let split = split_ref(&mut source_builder, [left, right], asm_op);
    root(&mut source_builder, split);
    let library = build(source_builder);
    let id = library.id(split);
    let source_root = library.built.graph.roots[0];
    let link = |package: PackageDebugInfo| {
        let libraries = one_library(&library.forest, Some(package));
        let hint = LinkHint {
            commitment: Some(library.forest.commitment()),
            root: Some(id),
            source: Some(source_root),
        };
        new_builder().ensure_external_link_with_source_ref(&libraries, hint, library.digest(id))
    };
    let children = library.package().nodes[source_root as usize].children.clone();

    let mut package = library.package();
    package.nodes[source_root as usize].children.swap(0, 1);
    package.nodes[children[0] as usize].children.push(0);
    assert_eq!(link(package), Err(StaticImportError::ChildMismatch { source: source_root, index: 0 }));

    let mut package = library.package();
    package.nodes[children[0] as usize].children.push(0);
    package.nodes[children[1] as usize].children.push(0);
    assert_eq!(
        link(package),
        Err(StaticImportError::ChildCount { source: children[0], actual: 1, expected: 0 }),
    );

    let mut package = library.package();
    package.nodes[children[1] as usize].children.push(0);
    package.nodes[source_root as usize].asm_ops[0].op_name_idx = 900;
    assert_eq!(
        link(package),
        Err(StaticImportError::ChildCount { source: children[1], actual: 1, expected: 0 }),
    );
}

#[test]
fn a_library_with_broken_tables_is_refused_when_it_is_linked() {
    let (library, id) = single_library("broken");
    let mut package = library.package();
    package.tables.section.add_type(DebugTypeInfo::Pointer { pointee_type_idx: 9 }).unwrap();
    let libraries = one_library(&library.forest, Some(package));
    let mut builder = new_builder();
    let hint = LinkHint {
        commitment: Some(library.forest.commitment()),
        root: Some(id),
        source: Some(library.built.graph.roots[0]),
    };
    assert_eq!(
        builder.ensure_external_link_with_source_ref(&libraries, hint, library.digest(id)),
        Err(StaticImportError::Tables(DebugTypeError::MissingEntry)),
    );
    assert!(builder.registry.imports.is_empty());
    assert!(builder.nodes.is_empty());
}

#[test]
fn rows_that_do_not_fit_are_refused() {
    let with_row = |builder: &mut MastForestBuilder| {
        let mut ops = vec![Operation::Push(felt(1))];
        ops.extend(vec![Operation::Drop; 6]);
        ops.push(Operation::Push(felt(2)));
        ops.push(Operation::Push(felt(3)));
        let asm_rows = asm_row(builder, "ctx", "push.3");
        block_ref(builder, ops, vec![asm_at(asm_rows, u32::MAX)], vec![])
    };
    let mut builder = new_builder();
    let block = with_row(&mut builder);
    root(&mut builder, block);
    assert!(matches!(
        builder.build(),
        Err(MastForestBuilderError::RowsOutOfRange { source_ref: SourceNodeRef(0) }),
    ));

    let mut builder = new_builder();
    with_row(&mut builder);
    assert_eq!(build(builder).forest.num_nodes(), 0);
}

#[test]
fn a_new_builder_holds_nothing() {
    let builder = MastForestBuilder::new(AdviceMap::new());
    assert!(builder.nodes.is_empty());
    assert!(builder.graph.roots.is_empty());
    assert!(builder.decorated.is_empty());
    assert!(builder.registry.inline_functions.is_empty());
    assert!(builder.registry.imports.is_empty());
    assert!(builder.registry.tables.section.strings.is_empty());
    let built = build(builder);
    assert_eq!(built.forest.num_nodes(), 0);
}
