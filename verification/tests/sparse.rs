//! Sparse forests.

use miden_mast::block::write_block;
use miden_mast::bytes::{read_slice_at, read_usize_at, write_count, write_le};
use miden_mast::error::{DeserializationError, InvalidValue, SparseFault};
use miden_mast::felt::{Felt, Word};
use miden_mast::forest::{AdviceMap, MastForest, MAX_NODES};
use miden_mast::layout::read_word_at;
use miden_mast::node::{MastNode, MastNodeId, NodeKind};
use miden_mast::operation::Operation;
use miden_mast::sparse::{SparseMastForest, SparseMastForestBuilder, VisitKind};
use miden_mast::wire::write_word;

fn felt(value: u64) -> Felt {
    Felt::new_unchecked(value)
}

fn word(a: u64, b: u64, c: u64, d: u64) -> Word {
    Word::new([felt(a), felt(b), felt(c), felt(d)])
}

fn block(forest: &mut MastForest, op: Operation) -> MastNodeId {
    forest.add_block(&vec![op]).unwrap()
}

fn message<T>(result: Result<T, DeserializationError>) -> String {
    match result {
        Ok(_) => panic!("expected an error"),
        Err(DeserializationError::InvalidValue(value)) => value.message(),
        Err(err) => panic!("unexpected error: {err:?}"),
    }
}

fn split_forest() -> (MastForest, MastNodeId, MastNodeId, MastNodeId) {
    let mut forest = MastForest::new();
    let true_branch = block(&mut forest, Operation::Add);
    let false_branch = block(&mut forest, Operation::Mul);
    let root = forest.add_node(NodeKind::Split(true_branch, false_branch), Word::default()).unwrap();
    forest.make_root(root);
    (forest, true_branch, false_branch, root)
}

fn sparse_split_fixture() -> (MastForest, SparseMastForest, MastNodeId, MastNodeId, MastNodeId) {
    let (forest, true_branch, false_branch, root) = split_forest();
    let mut builder = SparseMastForestBuilder::new(&forest);
    builder.record_visit(true_branch, VisitKind::FullVisit);
    builder.record_visit(false_branch, VisitKind::DigestOnly);
    builder.record_visit(root, VisitKind::FullVisit);
    let sparse = builder.finalize();
    (forest, sparse, true_branch, false_branch, root)
}

fn node_parts(sparse: &SparseMastForest) -> Vec<(MastNodeId, MastNode)> {
    sparse
        .full_ids
        .iter()
        .zip(sparse.nodes.iter())
        .map(|(id, node)| (MastNodeId(*id), node.clone()))
        .collect()
}

fn digest_parts(sparse: &SparseMastForest) -> Vec<(MastNodeId, Word)> {
    sparse
        .digest_ids
        .iter()
        .zip(sparse.digests.iter())
        .map(|(id, digest)| (MastNodeId(*id), *digest))
        .collect()
}

fn scratch_block() -> MastNode {
    let mut forest = MastForest::new();
    block(&mut forest, Operation::Add);
    forest.nodes[0].clone()
}

fn write_sparse_block_entry(id: u32, node: &MastNode, target: &mut Vec<u8>) {
    write_le(target, id as u64, 4);
    target.push(0);
    write_word(target, node.digest());
    let mut data = Vec::new();
    write_block(node.op_batches().unwrap(), &mut data);
    write_count(target, data.len() as u64);
    target.extend_from_slice(&data);
}

fn read_id(bytes: &[u8], offset: &mut usize) -> MastNodeId {
    let s = read_slice_at(bytes, offset, 4).unwrap();
    MastNodeId(u32::from_le_bytes([s[0], s[1], s[2], s[3]]))
}

fn skip_sparse_node(bytes: &[u8], offset: &mut usize) {
    let tag = read_slice_at(bytes, offset, 1).unwrap()[0];
    let _digest = read_word_at(bytes, offset).unwrap();
    match tag {
        0 => {
            let len = read_usize_at(bytes, offset).unwrap();
            let _ = read_slice_at(bytes, offset, len).unwrap();
        },
        1 | 2 => {
            let _first = read_id(bytes, offset);
            let _second = read_id(bytes, offset);
        },
        3..=5 => {
            let _child = read_id(bytes, offset);
        },
        6..=8 => {},
        _ => panic!("unexpected sparse test node tag {tag}"),
    }
}

fn sparse_payload_ids(bytes: &[u8]) -> (Vec<MastNodeId>, Vec<MastNodeId>) {
    let mut offset = 0;
    let root_count = read_usize_at(bytes, &mut offset).unwrap();
    for _ in 0..root_count {
        let _root = read_id(bytes, &mut offset);
    }
    let full_count = read_usize_at(bytes, &mut offset).unwrap();
    let mut full_ids = Vec::new();
    for _ in 0..full_count {
        let id = read_id(bytes, &mut offset);
        skip_sparse_node(bytes, &mut offset);
        full_ids.push(id);
    }
    let digest_count = read_usize_at(bytes, &mut offset).unwrap();
    let mut digest_ids = Vec::new();
    for _ in 0..digest_count {
        let id = read_id(bytes, &mut offset);
        let _digest = read_word_at(bytes, &mut offset).unwrap();
        digest_ids.push(id);
    }
    (full_ids, digest_ids)
}

#[test]
fn sparse_mast_round_trip_preserves_sparse_replay_ids() {
    let (source, sparse, true_branch, false_branch, root) = sparse_split_fixture();

    let bytes = sparse.to_bytes();
    let restored = SparseMastForest::read_from_bytes(&bytes).unwrap();

    assert_eq!(restored.num_nodes(), source.num_nodes());
    assert_eq!(restored.procedure_roots(), &vec![root]);
    assert_eq!(
        restored.get_node_by_id(true_branch).unwrap().digest(),
        source.node_digest(true_branch)
    );
    assert_eq!(restored.get_node_by_id(root).unwrap().digest(), source.node_digest(root));
    assert!(restored.get_node_by_id(false_branch).is_none());
    assert_eq!(restored.get_digest_by_id(true_branch), Some(source.node_digest(true_branch)));
    assert_eq!(restored.get_digest_by_id(false_branch), Some(source.node_digest(false_branch)));
    assert_eq!(restored.get_digest_by_id(root), Some(source.node_digest(root)));
}

#[test]
fn sparse_mast_round_trip_preserves_external_full_node() {
    let mut forest = MastForest::new();
    let unvisited = block(&mut forest, Operation::Add);
    let external_digest = word(17, 18, 19, 20);
    let external = forest.add_node(NodeKind::External, external_digest).unwrap();
    forest.make_root(external);

    let mut builder = SparseMastForestBuilder::new(&forest);
    builder.record_visit(external, VisitKind::FullVisit);
    let sparse = builder.finalize();

    let restored = SparseMastForest::read_from_bytes(&sparse.to_bytes()).unwrap();

    assert_eq!(restored.num_nodes(), forest.num_nodes());
    assert_eq!(restored.procedure_roots(), &vec![external]);
    assert_eq!(restored.get_node_by_id(external).unwrap().digest(), external_digest);
    assert_eq!(restored.get_digest_by_id(external), Some(external_digest));
    assert!(restored.get_node_by_id(unvisited).is_none());
    assert_eq!(restored.get_digest_by_id(unvisited), None);
}

#[test]
fn sparse_mast_round_trip_writes_map_sections_in_node_id_order() {
    let mut forest = MastForest::new();
    let first = block(&mut forest, Operation::Add);
    let second = block(&mut forest, Operation::Mul);
    let third = block(&mut forest, Operation::Drop);
    forest.make_root(first);

    let mut builder = SparseMastForestBuilder::new(&forest);
    builder.record_visit(third, VisitKind::FullVisit);
    builder.record_visit(first, VisitKind::FullVisit);
    builder.record_visit(second, VisitKind::DigestOnly);
    let sparse = builder.finalize();

    let (full_ids, digest_ids) = sparse_payload_ids(&sparse.to_bytes());

    assert_eq!(full_ids, vec![first, third]);
    assert_eq!(digest_ids, vec![second]);
}

#[test]
fn sparse_mast_drops_source_advice_map() {
    let mut source = MastForest::new();
    let root = block(&mut source, Operation::Add);
    source.make_root(root);
    source.advice_map.insert(word(11, 12, 13, 14), vec![felt(15), felt(16)]);

    let mut builder = SparseMastForestBuilder::new(&source);
    builder.record_visit(root, VisitKind::FullVisit);
    let sparse = builder.finalize();
    let restored = SparseMastForest::read_from_bytes(&sparse.to_bytes()).unwrap();

    assert_eq!(source.advice_map.len(), 1);
    assert_eq!(sparse.advice_map().len(), 0);
    assert_eq!(restored.advice_map().len(), 0);
}

#[test]
fn sparse_reader_rejects_non_empty_advice_map_count() {
    let mut bytes = Vec::new();
    write_count(&mut bytes, 0);
    write_count(&mut bytes, 0);
    write_count(&mut bytes, 0);
    write_count(&mut bytes, 1);

    let err = message(SparseMastForest::read_from_bytes(&bytes));
    assert!(err.contains("must not carry advice map entries"));
}

#[test]
fn sparse_reader_rejects_non_increasing_full_node_ids() {
    let node = scratch_block();
    let mut bytes = Vec::new();
    write_count(&mut bytes, 0);
    write_count(&mut bytes, 2);
    write_sparse_block_entry(1, &node, &mut bytes);
    write_sparse_block_entry(0, &node, &mut bytes);
    write_count(&mut bytes, 0);
    write_count(&mut bytes, 0);

    let err = message(SparseMastForest::read_from_bytes(&bytes));
    assert!(err.contains("full node ids must be strictly increasing"));
}

#[test]
fn sparse_reader_rejects_non_increasing_digest_only_ids() {
    let node = scratch_block();
    let mut bytes = Vec::new();
    write_count(&mut bytes, 0);
    write_count(&mut bytes, 1);
    write_sparse_block_entry(0, &node, &mut bytes);
    write_count(&mut bytes, 2);
    write_le(&mut bytes, 2, 4);
    write_word(&mut bytes, node.digest());
    write_le(&mut bytes, 1, 4);
    write_word(&mut bytes, node.digest());
    write_count(&mut bytes, 0);

    let err = message(SparseMastForest::read_from_bytes(&bytes));
    assert!(err.contains("digest-only node ids must be strictly increasing"));
}

#[test]
fn sparse_reader_rejects_trailing_bytes() {
    let node = scratch_block();
    let mut bytes = Vec::new();
    write_count(&mut bytes, 0);
    write_count(&mut bytes, 1);
    write_sparse_block_entry(0, &node, &mut bytes);
    write_count(&mut bytes, 0);
    write_count(&mut bytes, 0);
    bytes.push(0);

    let err = message(SparseMastForest::read_from_bytes(&bytes));
    assert!(err.contains("extra bytes after SparseMastForest payload"));
}

#[test]
fn sparse_reader_rejects_dense_payloads() {
    let mut forest = MastForest::new();
    let root = block(&mut forest, Operation::Add);
    forest.make_root(root);

    let result = SparseMastForest::read_from_bytes(&forest.to_bytes());
    assert!(result.is_err());
}

#[test]
fn sparse_reader_rejects_oversized_node_id_before_sections() {
    let mut bytes = Vec::new();
    write_count(&mut bytes, 1);
    write_le(&mut bytes, MAX_NODES as u64, 4);

    let err = message(SparseMastForest::read_from_bytes(&bytes));
    assert!(err.contains("procedure root id"));
    assert!(err.contains("number of nodes in the forest"));
}

#[test]
fn sparse_reader_rejects_oversized_section_count_before_allocation() {
    let mut bytes = Vec::new();
    write_count(&mut bytes, usize::MAX as u64);

    let err = message(SparseMastForest::read_from_bytes(&bytes));
    assert!(err.contains("procedure root count"));
}

#[test]
fn sparse_serialized_parts_reject_missing_child_digest() {
    let (_source, sparse, _true_branch, false_branch, _root) = sparse_split_fixture();
    let digests = digest_parts(&sparse).into_iter().filter(|(id, _)| *id != false_branch).collect();

    let result = SparseMastForest::from_serialized_parts(
        node_parts(&sparse),
        digests,
        sparse.procedure_roots().clone(),
        AdviceMap::new(),
    );
    assert!(message(result).contains("without a full node or digest-only entry"));
}

#[test]
fn sparse_serialized_parts_reject_duplicate_full_ids() {
    let (_source, sparse, true_branch, _false_branch, _root) = sparse_split_fixture();
    let mut nodes = node_parts(&sparse);
    nodes.push((true_branch, sparse.get_node_by_id(true_branch).unwrap().clone()));

    let result = SparseMastForest::from_serialized_parts(
        nodes,
        digest_parts(&sparse),
        sparse.procedure_roots().clone(),
        AdviceMap::new(),
    );
    assert!(message(result).contains("duplicate sparse full-node id"));
}

#[test]
fn sparse_serialized_parts_reject_duplicate_digest_only_ids() {
    let (_source, sparse, _true_branch, false_branch, _root) = sparse_split_fixture();
    let mut digests = digest_parts(&sparse);
    digests.push((false_branch, sparse.get_digest_by_id(false_branch).unwrap()));

    let result = SparseMastForest::from_serialized_parts(
        node_parts(&sparse),
        digests,
        sparse.procedure_roots().clone(),
        AdviceMap::new(),
    );
    assert!(message(result).contains("duplicate sparse digest-only id"));
}

#[test]
fn sparse_serialized_parts_reject_full_digest_overlap() {
    let (_source, sparse, true_branch, _false_branch, _root) = sparse_split_fixture();
    let mut digests = digest_parts(&sparse);
    digests.push((true_branch, sparse.get_digest_by_id(true_branch).unwrap()));

    let result = SparseMastForest::from_serialized_parts(
        node_parts(&sparse),
        digests,
        sparse.procedure_roots().clone(),
        AdviceMap::new(),
    );
    assert!(message(result).contains("overlaps a digest-only entry"));
}

#[test]
fn sparse_serialized_parts_reject_out_of_range_full_digest_and_root_ids() {
    let (_source, sparse, true_branch, false_branch, _root) = sparse_split_fixture();
    let out_of_range = MastNodeId(MAX_NODES as u32);

    let mut nodes = node_parts(&sparse);
    nodes.push((out_of_range, sparse.get_node_by_id(true_branch).unwrap().clone()));
    let err = message(SparseMastForest::from_serialized_parts(
        nodes,
        digest_parts(&sparse),
        sparse.procedure_roots().clone(),
        AdviceMap::new(),
    ));
    assert!(err.contains("full node id") && err.contains("exceeds maximum"));

    let mut digests = digest_parts(&sparse);
    digests.push((out_of_range, sparse.get_digest_by_id(false_branch).unwrap()));
    let err = message(SparseMastForest::from_serialized_parts(
        node_parts(&sparse),
        digests,
        sparse.procedure_roots().clone(),
        AdviceMap::new(),
    ));
    assert!(err.contains("digest-only node id") && err.contains("exceeds maximum"));

    let err = message(SparseMastForest::from_serialized_parts(
        node_parts(&sparse),
        digest_parts(&sparse),
        vec![out_of_range],
        AdviceMap::new(),
    ));
    assert!(err.contains("procedure root id") && err.contains("exceeds maximum"));
}

#[test]
fn sparse_parts_are_put_in_order() {
    let (_source, sparse, true_branch, _false_branch, root) = sparse_split_fixture();
    let mut nodes = node_parts(&sparse);
    nodes.reverse();
    assert_eq!(nodes[0].0, root);
    let restored = SparseMastForest::from_serialized_parts(
        nodes,
        digest_parts(&sparse),
        sparse.procedure_roots().clone(),
        AdviceMap::new(),
    )
    .unwrap();
    assert_eq!(restored.full_ids, vec![true_branch.0, root.0]);
    assert_eq!(restored.to_bytes(), sparse.to_bytes());

    let mut advice_map = AdviceMap::new();
    advice_map.insert(word(1, 2, 3, 4), vec![felt(5)]);
    let result = SparseMastForest::from_serialized_parts(
        node_parts(&sparse),
        digest_parts(&sparse),
        sparse.procedure_roots().clone(),
        advice_map,
    );
    assert!(matches!(
        result,
        Err(DeserializationError::InvalidValue(InvalidValue::Sparse(
            SparseFault::AdviceEntries { count: 1 }
        )))
    ));
}

#[test]
fn sparse_full_visits_win() {
    let (forest, true_branch, _false_branch, _root) = split_forest();
    let mut builder = SparseMastForestBuilder::new(&forest);
    builder.record_visit(true_branch, VisitKind::DigestOnly);
    builder.record_visit(true_branch, VisitKind::FullVisit);
    builder.record_visit(true_branch, VisitKind::DigestOnly);
    let sparse = builder.finalize();
    assert!(sparse.get_node_by_id(true_branch).is_some());
    assert!(sparse.digest_ids.is_empty());
}

#[test]
fn sparse_nodes_of_every_kind_round_trip() {
    let mut forest = MastForest::new();
    let external = forest.add_node(NodeKind::External, word(1, 2, 3, 4)).unwrap();
    let body = block(&mut forest, Operation::Add);
    let kinds = vec![
        NodeKind::Join(body, external),
        NodeKind::Split(external, body),
        NodeKind::Loop(body),
        NodeKind::Call(body),
        NodeKind::SysCall(external),
        NodeKind::Dyn,
        NodeKind::Dyncall,
    ];
    for kind in kinds {
        forest.add_node(kind, Word::default()).unwrap();
    }
    forest.make_root(MastNodeId(8));
    let mut builder = SparseMastForestBuilder::new(&forest);
    for id in 0..9 {
        builder.record_visit(MastNodeId(id), VisitKind::FullVisit);
    }
    let sparse = builder.finalize();
    let restored = SparseMastForest::read_from_bytes(&sparse.to_bytes()).unwrap();
    assert_eq!(restored.nodes, forest.nodes);
    assert_eq!(restored.num_nodes(), 9);
}

#[test]
fn sparse_nodes_of_unknown_kinds_are_refused() {
    let mut bytes = Vec::new();
    write_count(&mut bytes, 0);
    write_count(&mut bytes, 1);
    write_le(&mut bytes, 0, 4);
    bytes.push(9);
    write_word(&mut bytes, word(1, 2, 3, 4));
    assert!(matches!(
        SparseMastForest::read_from_bytes(&bytes),
        Err(DeserializationError::InvalidValue(InvalidValue::InvalidNodeType { discriminant: 9 }))
    ));
    assert!(matches!(
        SparseMastForest::read_from_bytes(&[]),
        Err(DeserializationError::UnexpectedEOF)
    ));
}
