//! Forests on the wire.

use miden_mast::batch::{batch_operations, OpBatch};
use miden_mast::bytes::{read_array_at, read_integer_at, read_slice_at, read_usize_at, write_count, write_le};
use miden_mast::error::{DeserializationError, InvalidValue};
use miden_mast::felt::{Felt, Word, MODULUS};
use miden_mast::forest::{AdviceMap, MastForest, MastForestError, MAX_NODES};
use miden_mast::hasher::{hash_elements, merge_in_domain};
use miden_mast::layout::read_word_at as read_word_from;
use miden_mast::node::{
    MastNode, MastNodeEntry, MastNodeId, MastNodeInfo, NodeKind, ENTRY_SIZE, JOIN_DOMAIN,
};
use miden_mast::operation::{read_operation_at, Operation, OP_BITS};
use miden_mast::read::TRUSTED_BYTE_READ_BUDGET_MULTIPLIER;
use miden_mast::untrusted::{
    default_untrusted_allocation_budget, read_untrusted_with_flags, reserve_allocation,
    untrusted_overspecification, UntrustedMastForest, UntrustedMastForestReadOptions,
};
use miden_mast::view::{
    MastForestReadMode, MastForestReadView, MastForestView, MastForestWireView,
};
use miden_mast::wire::FLAG_HASHLESS;
use miden_mast::error::AllocationLabel;

fn felt(value: u64) -> Felt {
    Felt::new_unchecked(value)
}

fn word(a: u64, b: u64, c: u64, d: u64) -> Word {
    Word::new([felt(a), felt(b), felt(c), felt(d)])
}

fn block(forest: &mut MastForest, ops: Vec<Operation>) -> MastNodeId {
    forest.add_block(&ops).unwrap()
}

fn node(forest: &mut MastForest, kind: NodeKind) -> MastNodeId {
    forest.add_node(kind, Word::default()).unwrap()
}

fn external(forest: &mut MastForest, digest: Word) -> MastNodeId {
    forest.add_node(NodeKind::External, digest).unwrap()
}

fn message<T>(result: Result<T, DeserializationError>) -> String {
    match result {
        Ok(_) => panic!("expected an error"),
        Err(DeserializationError::InvalidValue(value)) => value.message(),
        Err(err) => panic!("unexpected error: {err:?}"),
    }
}

fn canonicalized_for_test(forest: &MastForest) -> MastForest {
    MastForest::from_raw_parts(
        forest.nodes.clone(),
        forest.roots.clone(),
        forest.advice_map.clone(),
    )
    .unwrap()
}

fn single_block_forest() -> MastForest {
    let mut forest = MastForest::new();
    let block_id = block(&mut forest, vec![Operation::Add]);
    forest.make_root(block_id);
    forest
}

fn serialized_single_block_forest() -> Vec<u8> {
    single_block_forest().to_bytes()
}

fn hashless(forest: &MastForest) -> Vec<u8> {
    let mut bytes = Vec::new();
    forest.write_hashless(&mut bytes);
    bytes
}

fn assert_serialized_view_matches_forest(forest: &MastForest) {
    let forest = canonicalized_for_test(forest);
    let mut bytes = Vec::new();
    forest.write_into(&mut bytes);

    let view = MastForestWireView::new(&bytes).unwrap();
    assert_eq!(view.node_count(), forest.nodes.len());

    let mut data = Vec::new();
    for (idx, node) in forest.nodes.iter().enumerate() {
        let ops_offset = data.len() as u32;
        if let NodeKind::Block(batches) = &node.kind {
            miden_mast::block::write_block(batches, &mut data);
        }
        let expected = MastNodeInfo {
            entry: MastNodeEntry::new(node, ops_offset),
            digest: node.digest(),
        };
        assert_eq!(view.node_info_at(idx).unwrap(), expected);
    }
}

#[test]
fn confirm_operation_structure() {
    match Operation::Noop {
        Operation::Noop => (),
        Operation::Assert(_) => (),
        Operation::SDepth => (),
        Operation::Caller => (),
        Operation::Clk => (),
        Operation::Add => (),
        Operation::Neg => (),
        Operation::Mul => (),
        Operation::Inv => (),
        Operation::Incr => (),
        Operation::And => (),
        Operation::Or => (),
        Operation::Not => (),
        Operation::Eq => (),
        Operation::Eqz => (),
        Operation::Expacc => (),
        Operation::Ext2Mul => (),
        Operation::U32split => (),
        Operation::U32add => (),
        Operation::U32assert2(_) => (),
        Operation::U32add3 => (),
        Operation::U32sub => (),
        Operation::U32mul => (),
        Operation::U32madd => (),
        Operation::U32div => (),
        Operation::U32and => (),
        Operation::U32xor => (),
        Operation::Pad => (),
        Operation::Drop => (),
        Operation::Dup0 => (),
        Operation::Dup1 => (),
        Operation::Dup2 => (),
        Operation::Dup3 => (),
        Operation::Dup4 => (),
        Operation::Dup5 => (),
        Operation::Dup6 => (),
        Operation::Dup7 => (),
        Operation::Dup9 => (),
        Operation::Dup11 => (),
        Operation::Dup13 => (),
        Operation::Dup15 => (),
        Operation::Swap => (),
        Operation::SwapW => (),
        Operation::SwapW2 => (),
        Operation::SwapW3 => (),
        Operation::SwapDW => (),
        Operation::MovUp2 => (),
        Operation::MovUp3 => (),
        Operation::MovUp4 => (),
        Operation::MovUp5 => (),
        Operation::MovUp6 => (),
        Operation::MovUp7 => (),
        Operation::MovUp8 => (),
        Operation::MovDn2 => (),
        Operation::MovDn3 => (),
        Operation::MovDn4 => (),
        Operation::MovDn5 => (),
        Operation::MovDn6 => (),
        Operation::MovDn7 => (),
        Operation::MovDn8 => (),
        Operation::CSwap => (),
        Operation::CSwapW => (),
        Operation::Push(_) => (),
        Operation::AdvPop => (),
        Operation::AdvPopW => (),
        Operation::MLoadW => (),
        Operation::MStoreW => (),
        Operation::MLoad => (),
        Operation::MStore => (),
        Operation::MStream => (),
        Operation::Pipe => (),
        Operation::CryptoStream => (),
        Operation::HPerm => (),
        Operation::MpVerify(_) => (),
        Operation::MrUpdate => (),
        Operation::FriE2F4 => (),
        Operation::HornerBase => (),
        Operation::HornerExt => (),
        Operation::EvalCircuit => (),
        Operation::Emit => (),
        Operation::LogDeferred => (),
    };
}

fn sample_basic_block_operations_all_variants() -> Vec<Operation> {
    vec![
        Operation::Noop,
        Operation::Assert(Felt::from_u32(42)),
        Operation::SDepth,
        Operation::Caller,
        Operation::Clk,
        Operation::Add,
        Operation::Neg,
        Operation::Mul,
        Operation::Inv,
        Operation::Incr,
        Operation::And,
        Operation::Or,
        Operation::Not,
        Operation::Eq,
        Operation::Eqz,
        Operation::Expacc,
        Operation::Ext2Mul,
        Operation::U32split,
        Operation::U32add,
        Operation::U32assert2(Felt::from_u32(222)),
        Operation::U32add3,
        Operation::U32sub,
        Operation::U32mul,
        Operation::U32madd,
        Operation::U32div,
        Operation::U32and,
        Operation::U32xor,
        Operation::Pad,
        Operation::Drop,
        Operation::Dup0,
        Operation::Dup1,
        Operation::Dup2,
        Operation::Dup3,
        Operation::Dup4,
        Operation::Dup5,
        Operation::Dup6,
        Operation::Dup7,
        Operation::Dup9,
        Operation::Dup11,
        Operation::Dup13,
        Operation::Dup15,
        Operation::Swap,
        Operation::SwapW,
        Operation::SwapW2,
        Operation::SwapW3,
        Operation::SwapDW,
        Operation::MovUp2,
        Operation::MovUp3,
        Operation::MovUp4,
        Operation::MovUp5,
        Operation::MovUp6,
        Operation::MovUp7,
        Operation::MovUp8,
        Operation::MovDn2,
        Operation::MovDn3,
        Operation::MovDn4,
        Operation::MovDn5,
        Operation::MovDn6,
        Operation::MovDn7,
        Operation::MovDn8,
        Operation::CSwap,
        Operation::CSwapW,
        Operation::Push(Felt::new_unchecked(45)),
        Operation::AdvPop,
        Operation::AdvPopW,
        Operation::MLoadW,
        Operation::MStoreW,
        Operation::MLoad,
        Operation::MStore,
        Operation::MStream,
        Operation::Pipe,
        Operation::CryptoStream,
        Operation::HPerm,
        Operation::MpVerify(Felt::from_u32(1022)),
        Operation::MrUpdate,
        Operation::FriE2F4,
        Operation::HornerBase,
        Operation::HornerExt,
        Operation::EvalCircuit,
        Operation::Emit,
        Operation::LogDeferred,
    ]
}

fn assert_operation_encoded_size_matches_serialized_len(operation: Operation) {
    assert_eq!(operation.encoded_size(), operation.to_bytes().len());
}

#[test]
fn test_operation_encoded_size_matches_serialized_len() {
    for operation in sample_basic_block_operations_all_variants() {
        assert_operation_encoded_size_matches_serialized_len(operation);
    }
}

#[test]
fn test_operation_encoded_size_push_varint_boundaries() {
    for value in [
        127u64,
        128,
        16_383,
        16_384,
        2_097_151,
        2_097_152,
        268_435_455,
        268_435_456,
        72_057_594_037_927_935,
        72_057_594_037_927_936,
    ] {
        assert_operation_encoded_size_matches_serialized_len(Operation::Push(felt(value)));
    }
}

#[test]
fn operations_are_read_back() {
    for operation in sample_basic_block_operations_all_variants() {
        let bytes = operation.to_bytes();
        let mut offset = 0;
        assert_eq!(read_operation_at(&bytes, &mut offset), Ok(operation));
        assert_eq!(offset, bytes.len());
    }
    let mut offset = 0;
    assert_eq!(
        read_operation_at(&[127], &mut offset),
        Err(DeserializationError::InvalidValue(InvalidValue::UnknownOpcode { code: 127 }))
    );
}

#[test]
fn counts_are_read_back() {
    for (value, len) in [
        (0u64, 1),
        (127, 1),
        (128, 2),
        (16_383, 2),
        (16_384, 3),
        (2_097_151, 3),
        (268_435_456, 5),
        (72_057_594_037_927_935, 8),
        (72_057_594_037_927_936, 9),
        (u64::MAX, 9),
    ] {
        let mut bytes = Vec::new();
        write_count(&mut bytes, value);
        assert_eq!(bytes.len(), len);
        let mut offset = 0;
        assert_eq!(read_integer_at(&bytes, &mut offset), Ok(value));
        assert_eq!(offset, len);
    }
    let mut bytes = Vec::new();
    write_count(&mut bytes, 5);
    assert_eq!(bytes, vec![0x0b]);
    let mut offset = 0;
    assert_eq!(read_usize_at(&[], &mut offset), Err(DeserializationError::UnexpectedEOF));
    let mut offset = 0;
    assert_eq!(read_usize_at(&[0x02], &mut offset), Err(DeserializationError::UnexpectedEOF));
    assert_eq!(offset, 0);
    assert_eq!(read_usize_at(&[0x00, 1, 2], &mut offset), Err(DeserializationError::UnexpectedEOF));
    assert_eq!(offset, 1);
}

#[test]
fn slices_end_with_the_bytes() {
    let bytes = [1u8, 2, 3];
    let mut offset = 1;
    assert_eq!(read_slice_at(&bytes, &mut offset, 2), Ok(&bytes[1..3]));
    assert_eq!(offset, 3);
    assert_eq!(read_slice_at(&bytes, &mut offset, 1), Err(DeserializationError::UnexpectedEOF));
    assert_eq!(offset, 3);
    let mut offset = usize::MAX;
    assert_eq!(
        read_slice_at(&bytes, &mut offset, 1),
        Err(DeserializationError::InvalidValue(InvalidValue::OffsetOverflow))
    );
    let mut offset = 0;
    assert_eq!(read_array_at::<2>(&bytes, &mut offset), Ok([1, 2]));
}

#[test]
fn test_mast_forest_view_trait_matches_serialized_view() {
    let mut forest = MastForest::new();
    let block1 =
        block(&mut forest, vec![Operation::Push(felt(7)), Operation::Add, Operation::Mul]);
    let block2 = block(&mut forest, vec![Operation::U32div]);
    let join = node(&mut forest, NodeKind::Join(block1, block2));
    forest.make_root(join);
    let advice_key = word(11, 12, 13, 14);
    let advice_values = vec![felt(15), felt(16)];
    forest.advice_map.insert(advice_key, advice_values.clone());

    let mut bytes = Vec::new();
    forest.write_into(&mut bytes);
    let serialized = MastForestWireView::new(&bytes).unwrap();

    assert_eq!(forest.node_count(), 3);
    assert_eq!(forest.node_count(), serialized.node_count());
    for index in 0..forest.node_count() {
        assert_eq!(forest.node_info_at(index).unwrap(), serialized.node_info_at(index).unwrap());
        assert_eq!(
            forest.node_digest_at(index).unwrap(),
            serialized.node_digest_at(index).unwrap()
        );
    }
    let beyond = forest.node_count();
    assert!(message(forest.node_entry_at(beyond)).contains("node index 3 out of bounds"));
    assert!(message(serialized.node_entry_at(beyond)).contains("node index 3 out of bounds"));
    assert!(message(forest.node_digest_at(beyond)).contains("node index 3 out of bounds"));
    assert!(message(serialized.node_digest_at(beyond)).contains("node index 3 out of bounds"));

    assert_eq!(forest.procedure_root_count(), serialized.procedure_root_count());
    assert_eq!(forest.procedure_root_at(0), serialized.procedure_root_at(0));
    assert!(message(forest.procedure_root_at(1)).contains("root index 1 out of bounds for 1 roots"));
    assert!(
        message(serialized.procedure_root_at(1)).contains("root index 1 out of bounds for 1 roots")
    );

    let in_memory_advice = MastForestView::advice_map(&forest);
    let serialized_advice = MastForestView::advice_map(&serialized);
    assert_eq!(in_memory_advice.len(), 1);
    assert_eq!(serialized_advice.len(), 1);
    assert_eq!(in_memory_advice.get(&advice_key), Some(&advice_values));
    assert_eq!(serialized_advice.get(&advice_key), Some(&advice_values));
    assert_eq!(serialized_advice.get(&Word::default()), None);
}

#[test]
fn test_mast_forest_read_view_modes_match() {
    let mut forest = MastForest::new();
    let block = block(&mut forest, vec![Operation::Push(felt(3))]);
    forest.make_root(block);

    let advice_key = word(21, 22, 23, 24);
    let advice_values = vec![felt(25), felt(26)];
    forest.advice_map.insert(advice_key, advice_values.clone());

    let mut bytes = Vec::new();
    forest.write_into(&mut bytes);

    let materialized =
        MastForest::read_view_from_bytes(&bytes, MastForestReadMode::Materialized).unwrap();
    let wire_backed =
        MastForest::read_view_from_bytes(&bytes, MastForestReadMode::WireBacked).unwrap();

    assert!(matches!(materialized, MastForestReadView::Materialized(_)));
    assert!(matches!(wire_backed, MastForestReadView::WireBacked(_)));
    assert_eq!(materialized.node_count(), wire_backed.node_count());
    assert_eq!(materialized.node_info_at(0).unwrap(), wire_backed.node_info_at(0).unwrap());
    assert_eq!(materialized.procedure_root_count(), wire_backed.procedure_root_count());
    assert_eq!(materialized.procedure_root_at(0), wire_backed.procedure_root_at(0));
    assert_eq!(materialized.advice_map().get(&advice_key), Some(&advice_values));
    assert_eq!(wire_backed.advice_map().get(&advice_key), Some(&advice_values));
}

fn forest_with_all_node_types() -> MastForest {
    let mut forest = MastForest::new();
    let block_id = block(&mut forest, vec![Operation::Add]);
    let call_id = node(&mut forest, NodeKind::Call(block_id));
    let syscall_id = node(&mut forest, NodeKind::SysCall(block_id));
    let loop_id = node(&mut forest, NodeKind::Loop(block_id));
    let join_id = node(&mut forest, NodeKind::Join(block_id, call_id));
    let split_id = node(&mut forest, NodeKind::Split(block_id, call_id));
    let dyn_id = node(&mut forest, NodeKind::Dyn);
    let dyncall_id = node(&mut forest, NodeKind::Dyncall);
    let external_id = external(&mut forest, Word::default());
    for root in [join_id, syscall_id, loop_id, split_id, dyn_id, dyncall_id, external_id] {
        forest.make_root(root);
    }
    forest
}

#[test]
fn test_mast_forest_wire_view_random_access_all_node_types() {
    assert_serialized_view_matches_forest(&forest_with_all_node_types());
}

#[test]
fn test_mast_forest_wire_view_large_counts() {
    let mut forest = MastForest::new();
    let mut roots = Vec::new();

    for _ in 0..300 {
        roots.push(block(&mut forest, vec![Operation::Add]));
    }

    for root in roots.iter().take(200) {
        forest.make_root(*root);
    }

    assert_serialized_view_matches_forest(&forest);
}

fn node_hash_digest_offset(view: &MastForestWireView<'_>, node_index: usize) -> usize {
    view.node_hash_offset().unwrap() + view.digest_slot_at(node_index) * 32
}

fn external_digest_offset(view: &MastForestWireView<'_>, node_index: usize) -> usize {
    view.external_digest_offset() + view.digest_slot_at(node_index) * 32
}

fn read_word_at(bytes: &[u8], offset: usize) -> Word {
    let mut offset = offset;
    read_word_from(bytes, &mut offset).unwrap()
}

fn word_bytes(word: Word) -> Vec<u8> {
    let mut bytes = Vec::new();
    for element in word.as_elements() {
        write_le(&mut bytes, element.as_canonical_u64(), 8);
    }
    bytes
}

#[test]
fn test_mast_forest_wire_view_rejects_hashless() {
    let mut forest = MastForest::new();
    let block1 = block(&mut forest, vec![Operation::Add, Operation::Mul]);
    let block2 = block(&mut forest, vec![Operation::U32div]);
    let join = node(&mut forest, NodeKind::Join(block1, block2));
    forest.make_root(join);

    let bytes = hashless(&forest);
    assert!(message(MastForestWireView::new(&bytes)).contains("HASHLESS flag is set"));
}

#[test]
fn test_mast_forest_wire_view_rejects_hashless_external_nodes() {
    let mut forest = MastForest::new();
    let external_id = external(&mut forest, word(1, 2, 3, 4));
    forest.make_root(external_id);

    let bytes = hashless(&forest);
    assert!(message(MastForestWireView::new(&bytes)).contains("HASHLESS flag is set"));
}

#[test]
fn test_mast_forest_wire_view_external_digests_are_ordered_by_prefix() {
    let mut forest = MastForest::new();
    let first = word(30, 0, 0, 0);
    let second = word(10, 0, 0, 0);
    let third = word(20, 0, 0, 0);

    let first_id = external(&mut forest, first);
    let second_id = external(&mut forest, second);
    let third_id = external(&mut forest, third);
    forest.make_root(first_id);
    forest.make_root(second_id);
    forest.make_root(third_id);

    let forest = canonicalized_for_test(&forest);
    let bytes = forest.to_bytes();
    let view = MastForestWireView::new(&bytes).unwrap();

    assert_eq!(view.node_digest_at(0).unwrap(), second);
    assert_eq!(view.node_digest_at(1).unwrap(), third);
    assert_eq!(view.node_digest_at(2).unwrap(), first);
    assert_eq!(read_word_at(&bytes, external_digest_offset(&view, 0)), second);
    assert_eq!(read_word_at(&bytes, external_digest_offset(&view, 1)), third);
    assert_eq!(read_word_at(&bytes, external_digest_offset(&view, 2)), first);
    assert_eq!(forest.roots, vec![MastNodeId(2), MastNodeId(0), MastNodeId(1)]);
}

#[test]
fn test_mast_forest_wire_view_rejects_external_after_basic_block() {
    let mut forest = MastForest::new();
    let external = external(&mut forest, word(1, 0, 0, 0));
    let block = block(&mut forest, vec![Operation::Add]);
    forest.make_root(external);
    forest.make_root(block);

    let forest = canonicalized_for_test(&forest);
    let mut bytes = forest.to_bytes();
    let entry_offset = MastForestWireView::new(&bytes).unwrap().node_entry_offset();
    bytes[entry_offset..entry_offset + 2 * ENTRY_SIZE].rotate_left(ENTRY_SIZE);

    assert!(message(MastForestWireView::new(&bytes)).contains("after BasicBlock"));
}

#[test]
fn test_mast_forest_wire_view_rejects_duplicate_external_digests() {
    let mut forest = MastForest::new();
    let first = word(1, 0, 0, 0);
    let second = word(2, 0, 0, 0);
    let first_id = external(&mut forest, first);
    let second_id = external(&mut forest, second);
    forest.make_root(first_id);
    forest.make_root(second_id);

    let forest = canonicalized_for_test(&forest);
    let mut bytes = forest.to_bytes();
    let offset = MastForestWireView::new(&bytes).unwrap().external_digest_offset() + 32;
    bytes[offset..offset + 32].copy_from_slice(&word_bytes(first));

    assert!(
        message(MastForestWireView::new(&bytes))
            .contains("external node digests must be strictly increasing")
    );
}

#[test]
fn test_untrusted_hashless_keeps_external_digests_by_prefix() {
    let mut forest = MastForest::new();
    let external_high = word(9, 0, 0, 0);
    let external_low = word(3, 0, 0, 0);

    let _block = block(&mut forest, vec![Operation::Add]);
    let high_id = external(&mut forest, external_high);
    let low_id = external(&mut forest, external_low);
    forest.make_root(high_id);
    forest.make_root(low_id);

    let forest = canonicalized_for_test(&forest);
    let bytes = hashless(&forest);
    let untrusted = UntrustedMastForest::read_from_bytes(&bytes).unwrap();
    let restored = untrusted.validate().unwrap();

    assert_eq!(restored.nodes[0].digest(), external_low);
    assert_eq!(restored.nodes[1].digest(), external_high);
}

#[test]
fn mast_forest_invalid_node_id() {
    let mut forest = MastForest::new();
    let first = block(&mut forest, vec![Operation::U32div]);
    let second = block(&mut forest, vec![Operation::U32div]);

    let mut overflow_forest = MastForest::new();
    block(&mut overflow_forest, vec![Operation::U32div]);
    block(&mut overflow_forest, vec![Operation::U32div]);
    block(&mut overflow_forest, vec![Operation::U32div]);
    let overflow = block(&mut overflow_forest, vec![Operation::U32div]);

    let expected = Err(MastForestError::NodeIdOverflow(overflow, 2));
    let zero = Word::default();
    assert_eq!(forest.add_node(NodeKind::Join(overflow, second), zero), expected);
    assert_eq!(forest.add_node(NodeKind::Join(first, overflow), zero), expected);
    assert_eq!(forest.add_node(NodeKind::Split(overflow, second), zero), expected);
    assert_eq!(forest.add_node(NodeKind::Split(first, overflow), zero), expected);
    assert_eq!(forest.add_node(NodeKind::Loop(overflow), zero), expected);
    assert_eq!(forest.add_node(NodeKind::Call(overflow), zero), expected);
    assert_eq!(forest.add_node(NodeKind::SysCall(overflow), zero), expected);

    forest.add_node(NodeKind::Join(first, second), zero).unwrap();
    assert_eq!(forest.add_block(&vec![]), Err(MastForestError::EmptyBasicBlock));
}

#[test]
fn mast_forest_deserialize_invalid_ops_offset_fails() {
    let mut forest = MastForest::new();
    let block_id = block(&mut forest, vec![Operation::Add, Operation::Mul]);
    forest.make_root(block_id);

    let serialized = forest.to_bytes();
    let node_entry_offset = MastForestWireView::new(&serialized).unwrap().node_entry_offset();

    let block_discriminant: u64 = 3;
    let corrupted_value = (block_discriminant << 60) | u32::MAX as u64;

    let mut corrupted = serialized;
    corrupted[node_entry_offset..node_entry_offset + 8]
        .copy_from_slice(&corrupted_value.to_le_bytes());

    let result = MastForest::read_from_bytes(&corrupted);
    assert!(matches!(result, Err(DeserializationError::InvalidValue(_))));
}

#[test]
fn mast_forest_read_from_bytes_rejects_fuzzed_overflow_payload() {
    let payload = [
        0x4d, 0x41, 0x53, 0x54, 0x00, 0x00, 0x00, 0x03, 0x07, 0x03, 0x0b, 0x00, 0x00, 0x00, 0x00,
        0xff, 0xff, 0xff, 0xff, 0xff, 0xff, 0xff, 0xff, 0xff, 0xff, 0xff, 0xff, 0xff, 0xff, 0xff,
        0xff, 0xff, 0xff, 0xff, 0xff, 0xff, 0xff, 0xff, 0xff, 0xff, 0xff, 0x00, 0x00, 0x30, 0x01,
        0x3b, 0x0b, 0x00, 0xad, 0xad, 0xad, 0xad, 0xad, 0xad, 0xad, 0xad, 0xad, 0xad, 0xad, 0xad,
        0xad, 0xad, 0xad, 0xad, 0xad, 0xad, 0xad, 0xad, 0xad, 0xad, 0xad, 0xad, 0xad, 0x53, 0x4a,
        0xad, 0xad, 0xad, 0xad, 0xad, 0xad, 0xad, 0xad, 0xad, 0xad, 0xad, 0xad, 0xad, 0xad, 0xad,
        0xad, 0xad, 0xad, 0xad, 0xad, 0xad, 0xad, 0xad, 0xad, 0xad, 0xad, 0xad, 0x21, 0x00, 0x00,
        0x00, 0x00, 0x00, 0x00, 0x00, 0xad, 0xad, 0xad, 0xad, 0x00, 0x00, 0x00, 0x00, 0x00, 0x30,
        0x01, 0x00, 0x00, 0x00, 0x00, 0x01, 0x00, 0x00, 0x00, 0x84, 0x81, 0xc3, 0xbc, 0x72, 0x7f,
        0x15, 0x30,
    ];

    let result = MastForest::read_from_bytes(&payload);
    assert!(result.is_err());

    // A list of a thousand forests in no bytes.
    let mut vec_payload = vec![0];
    vec_payload.extend_from_slice(&1000u64.to_le_bytes());
    let budget = vec_payload.len().saturating_mul(TRUSTED_BYTE_READ_BUDGET_MULTIPLIER);
    let mut offset = 0;
    let count = read_usize_at(&vec_payload, &mut offset).unwrap();
    assert_eq!(count, 1000);
    assert!(count > budget - offset || MastForest::read_from_bytes(&vec_payload[offset..]).is_err());

    // An optional forest.
    let mut option_payload = vec![1];
    option_payload.extend_from_slice(&payload);
    assert_eq!(option_payload[0], 1);
    assert!(MastForest::read_from_bytes(&option_payload[1..]).is_err());
}

#[test]
fn mast_forest_serialize_deserialize_omits_legacy_debug_info() {
    let mut forest = MastForest::new();
    let block1_id = block(&mut forest, vec![Operation::Add]);
    let block2_id = block(&mut forest, vec![Operation::Mul]);
    let block3_id = block(&mut forest, vec![Operation::U32sub]);
    forest.make_root(block1_id);
    forest.make_root(block2_id);
    forest.make_root(block3_id);

    let serialized = forest.to_bytes();
    let mut explicit = Vec::new();
    forest.write_into(&mut explicit);
    assert_eq!(serialized, explicit);

    // The advice map is empty and nothing follows it.
    let view = MastForestWireView::new(&serialized).unwrap();
    assert_eq!(view.layout.advice_offset + 1, serialized.len());

    let deserialized = MastForest::read_from_bytes(&serialized).unwrap();
    assert_eq!(forest, deserialized);
}

#[test]
fn mast_forest_deserializers_reject_reserved_bit_zero() {
    let mut bytes = serialized_single_block_forest();
    bytes[4] = 0x01;
    let check = |msg: String| assert!(msg.contains("Unknown flags") && msg.contains("0x01"));

    check(message(MastForest::read_from_bytes(&bytes)));
    check(message(MastForest::read_view_from_bytes(&bytes, MastForestReadMode::Materialized)));
    check(message(MastForest::read_view_from_bytes(&bytes, MastForestReadMode::WireBacked)));
    check(message(MastForestWireView::new(&bytes)));
    check(message(UntrustedMastForest::read_from_bytes(&bytes)));
}

#[test]
fn mast_forest_wire_view_rejects_trailing_bytes_after_payload() {
    let mut bytes = serialized_single_block_forest();
    bytes.extend_from_slice(&[1, 2, 3]);
    assert!(
        message(MastForestWireView::new(&bytes)).contains("extra bytes after MastForest payload")
    );
}

#[test]
fn mast_forest_byte_readers_reject_trailing_bytes_after_payload() {
    let mut bytes = serialized_single_block_forest();
    bytes.extend_from_slice(&[1, 2, 3]);
    let check = |msg: String| assert!(msg.contains("extra bytes after MastForest payload"));

    check(message(MastForest::read_from_bytes(&bytes)));
    check(message(MastForest::read_view_from_bytes(&bytes, MastForestReadMode::Materialized)));
    check(message(UntrustedMastForest::read_from_bytes(&bytes)));
}

#[test]
fn test_opbatch_roundtrip_preservation() {
    let mut forest = MastForest::new();
    let operations = vec![
        Operation::Add,
        Operation::Push(felt(100)),
        Operation::Push(felt(200)),
        Operation::Mul,
    ];
    let block_id = block(&mut forest, operations);

    let original = forest.nodes[block_id.to_usize()].op_batches().unwrap();
    let deserialized_forest = MastForest::read_from_bytes(&forest.to_bytes()).unwrap();
    let deserialized = deserialized_forest.nodes[block_id.to_usize()].op_batches().unwrap();

    assert_eq!(original, deserialized);
}

#[test]
fn test_multi_batch_roundtrip() {
    let mut forest = MastForest::new();
    let operations: Vec<_> = (0..80).map(|i| Operation::Push(felt(i))).collect();
    let block_id = block(&mut forest, operations);

    let original = forest.nodes[block_id.to_usize()].op_batches().unwrap();
    assert!(original.len() > 1, "Should have multiple batches");

    let deserialized_forest = MastForest::read_from_bytes(&forest.to_bytes()).unwrap();
    let deserialized = deserialized_forest.nodes[block_id.to_usize()].op_batches().unwrap();

    assert_eq!(original, deserialized);
}

#[test]
fn test_raw_batched_digest_equivalence() {
    let operations = vec![
        Operation::Add,
        Operation::Mul,
        Operation::Push(felt(42)),
        Operation::Drop,
        Operation::Dup0,
    ];

    let mut forest1 = MastForest::new();
    let block_id1 = block(&mut forest1, operations);
    let digest1 = forest1.node_digest(block_id1);

    let serialized = forest1.to_bytes();
    let deserialized = MastForest::read_from_bytes(&serialized).unwrap();
    let digest2 = deserialized.node_digest(block_id1);

    assert_eq!(digest1, digest2, "Digests from Raw and Batched paths should match");
}

#[test]
fn test_batched_construction_preserves_structure() {
    let mut forest = MastForest::new();
    let operations = vec![
        Operation::Add,
        Operation::Mul,
        Operation::Push(felt(100)),
        Operation::Push(felt(200)),
    ];
    let block_id = block(&mut forest, operations);

    let original_node = &forest.nodes[block_id.to_usize()];
    let original_batches = original_node.op_batches().unwrap().clone();
    let original_digest = original_node.digest();

    let mut forest2 = MastForest::new();
    let block_id2 = node(&mut forest2, NodeKind::Block(original_batches.clone()));

    let new_node = &forest2.nodes[block_id2.to_usize()];
    assert_eq!(
        &original_batches,
        new_node.op_batches().unwrap(),
        "OpBatch structure should be exactly preserved"
    );
    assert_eq!(new_node.digest(), original_digest);
}

fn assert_header_flags(bytes: &[u8], expected_flags: u8) {
    assert_eq!(&bytes[0..4], b"MAST", "Magic should be MAST");
    assert_eq!(bytes[4], expected_flags, "unexpected serialization flags");
    assert_eq!(&bytes[5..8], &[0, 0, 4], "Version should be [0, 0, 4]");
}

fn read_header_counts(bytes: &[u8]) -> (usize, usize) {
    let mut offset = 8;
    let internal_node_count = read_usize_at(bytes, &mut offset).unwrap();
    let external_node_count = read_usize_at(bytes, &mut offset).unwrap();
    (internal_node_count, external_node_count)
}

#[test]
fn test_header_flags_for_serialization_modes() {
    let forest = single_block_forest();
    assert_header_flags(&forest.to_bytes(), 0x00);

    let mut normal_bytes = Vec::new();
    forest.write_into(&mut normal_bytes);
    assert_header_flags(&normal_bytes, 0x00);

    assert_header_flags(&hashless(&forest), 0x02);
}

#[test]
fn test_header_counts_match_node_kinds() {
    let mut forest = MastForest::new();
    let block_id = block(&mut forest, vec![Operation::Add]);
    let external_id = external(&mut forest, Word::default());
    let join_id = node(&mut forest, NodeKind::Join(block_id, external_id));
    forest.make_root(join_id);

    let forest = canonicalized_for_test(&forest);
    let (internal_node_count, external_node_count) = read_header_counts(&forest.to_bytes());
    assert_eq!(internal_node_count, 2);
    assert_eq!(external_node_count, 1);
}

#[test]
fn test_legacy_version_is_rejected() {
    let mut bytes = serialized_single_block_forest();
    bytes[5..8].copy_from_slice(&[0, 0, 3]);
    assert!(message(MastForest::read_from_bytes(&bytes)).contains("Unsupported version"));
}

#[test]
fn test_deserialization_rejects_mismatched_header_counts() {
    let mut bytes = serialized_single_block_forest();
    let internal_count_offset = 8;
    let mut offset = internal_count_offset;
    let _internal_node_count = read_usize_at(&bytes, &mut offset).unwrap();
    let external_count_offset = offset;
    let _external_node_count = read_usize_at(&bytes, &mut offset).unwrap();

    let mut encoded_internal = Vec::new();
    write_count(&mut encoded_internal, 0);
    let mut encoded_external = Vec::new();
    write_count(&mut encoded_external, 1);
    assert_eq!(encoded_internal.len(), 1);
    assert_eq!(encoded_external.len(), 1);
    bytes[internal_count_offset] = encoded_internal[0];
    bytes[external_count_offset] = encoded_external[0];

    assert!(
        message(MastForestWireView::new(&bytes))
            .contains("header external node count 1 does not match 0 external node entries")
    );
}

#[test]
fn test_serialization_sizes_shrink_from_digestful_to_hashless() {
    let mut forest = MastForest::new();
    let block_id = block(&mut forest, vec![Operation::Add, Operation::Mul, Operation::Drop]);
    forest.make_root(block_id);

    let full_bytes = forest.to_bytes();
    let mut normal_bytes = Vec::new();
    forest.write_into(&mut normal_bytes);
    let mut hashless_bytes = Vec::new();
    forest.write_hashless(&mut hashless_bytes);

    let full_view = MastForestWireView::new(&full_bytes).unwrap();
    assert_eq!(full_view.node_count(), forest.num_nodes());
    assert_eq!(full_view.procedure_root_count(), 1);
    assert!(full_view.node_info_at(0).is_ok());

    assert_eq!(normal_bytes, full_bytes);
    assert!(hashless_bytes.len() < normal_bytes.len());

    let normal_view = MastForestWireView::new(&normal_bytes).unwrap();
    assert!(normal_view.node_hash_offset().is_some());
    assert!(
        message(MastForestWireView::new(&hashless_bytes)).contains("HASHLESS flag is set")
    );
}

#[test]
fn hashless_payloads_leave_out_a_digest_per_node() {
    let mut forest = MastForest::new();
    let block1 = block(&mut forest, vec![Operation::Add, Operation::Mul]);
    let block2 = block(&mut forest, vec![Operation::U32div]);
    let join = node(&mut forest, NodeKind::Join(block1, block2));
    forest.make_root(join);
    let normal = forest.to_bytes();
    let hashless = hashless(&forest);
    assert_eq!(normal.len() - hashless.len(), 3 * 32);
}

#[test]
fn test_deserialize_rejects_unknown_flags() {
    let bytes = serialized_single_block_forest();
    for flag in [0x01, 0x08] {
        let mut bytes = bytes.clone();
        bytes[4] = flag;
        let msg = message(MastForest::read_from_bytes(&bytes));
        assert!(msg.contains("Unknown flags") && msg.contains("Reserved bits"));
    }
}

#[test]
fn test_trusted_rejects_hashless() {
    let bytes = hashless(&single_block_forest());
    assert!(message(MastForest::read_from_bytes(&bytes)).contains("HASHLESS"));
}

#[test]
fn test_trusted_rejects_truncated_hashless_before_layout_scan() {
    let mut bytes = hashless(&single_block_forest());
    bytes.truncate(8);
    assert!(message(MastForest::read_from_bytes(&bytes)).contains("HASHLESS"));
}

#[test]
fn test_materialized_deserialization_preserves_duplicate_roots() {
    let mut forest = MastForest::new();
    let root_id = block(&mut forest, vec![Operation::Add]);
    forest.roots = vec![root_id, root_id];

    let bytes = forest.to_bytes();
    let restored = MastForest::read_from_bytes(&bytes).unwrap();

    assert_eq!(restored.roots, vec![root_id, root_id]);
    assert_eq!(restored.commitment(), forest.commitment());
}

fn assert_untrusted_overspec_logging(
    bytes: &[u8],
    expected_nodes: usize,
    expected_log_fragments: &[&str],
) {
    let (_, flags) = read_untrusted_with_flags(bytes).unwrap();
    let logs: Vec<&str> = untrusted_overspecification(flags).into_iter().collect();
    assert_eq!(logs.len(), expected_log_fragments.len());
    for expected in expected_log_fragments {
        assert!(logs.iter().any(|msg| msg.contains(expected)));
    }
    let untrusted = UntrustedMastForest::read_from_bytes(bytes).unwrap();
    assert_eq!(untrusted.validate().unwrap().num_nodes(), expected_nodes);

    let budgeted = UntrustedMastForest::read_from_bytes_with_options(
        bytes,
        UntrustedMastForestReadOptions::new().with_wire_byte_budget(bytes.len()),
    )
    .unwrap();
    assert_eq!(budgeted.validate().unwrap().num_nodes(), expected_nodes);
}

#[test]
fn test_untrusted_overspecification_logging_matches_wire_mode() {
    let forest = single_block_forest();
    assert_untrusted_overspec_logging(&hashless(&forest), forest.num_nodes(), &[]);

    let mut normal_bytes = Vec::new();
    forest.write_into(&mut normal_bytes);
    assert_untrusted_overspec_logging(&normal_bytes, forest.num_nodes(), &["wire node hashes"]);

    let bytes = forest.to_bytes();
    assert_untrusted_overspec_logging(&bytes, forest.num_nodes(), &["wire node hashes"]);
}

#[test]
fn test_untrusted_hashless_validate_recomputes_without_wire_hash_section() {
    let mut forest = MastForest::new();
    let block1 = block(&mut forest, vec![Operation::Add, Operation::Mul]);
    let block2 = block(&mut forest, vec![Operation::U32div]);
    let join = node(&mut forest, NodeKind::Join(block1, block2));
    forest.make_root(join);

    let expected_digests: Vec<_> = forest.nodes.iter().map(MastNode::digest).collect();
    let untrusted = UntrustedMastForest::read_from_bytes(&hashless(&forest)).unwrap();
    let validated = untrusted.validate().unwrap();
    let validated_digests: Vec<_> = validated.nodes.iter().map(MastNode::digest).collect();
    assert_eq!(validated_digests, expected_digests);
}

#[test]
fn test_mast_forest_serialization_round_trip_without_debug_metadata() {
    let mut forest = MastForest::new();
    let ops = vec![Operation::Noop; 4];
    let block_id = block(&mut forest, ops);
    forest.make_root(block_id);

    let bytes = forest.to_bytes();
    let deserialized = MastForest::read_from_bytes(&bytes).unwrap();

    assert_eq!(forest.num_nodes(), deserialized.num_nodes());
    assert_eq!(forest, deserialized);
}

#[test]
fn test_untrusted_forest_detects_forward_reference() {
    let mut forest = MastForest::new();
    let _zero = block(&mut forest, vec![Operation::U32div]);
    let first = block(&mut forest, vec![Operation::U32add]);
    let second = block(&mut forest, vec![Operation::U32and]);
    node(&mut forest, NodeKind::Join(first, second));
    let forest = canonicalized_for_test(&forest);

    let mut bytes = forest.to_bytes();
    let entry_offset = MastForestWireView::new(&bytes).unwrap().node_entry_offset();
    bytes[entry_offset..entry_offset + 4 * ENTRY_SIZE].rotate_right(ENTRY_SIZE);

    let untrusted = UntrustedMastForest::read_from_bytes(&bytes).unwrap();
    match untrusted.validate() {
        Err(MastForestError::Deserialization(err)) => {
            assert!(err.message().contains("references child"))
        },
        other => panic!("unexpected result: {other:?}"),
    }
}

#[test]
fn test_untrusted_forest_rejects_mismatched_wire_root_hash() {
    let forest = single_block_forest();
    let block_id = MastNodeId(0);
    let expected_digest = forest.node_digest(block_id);

    let bytes = forest.to_bytes();
    let digest_offset = {
        let view = MastForestWireView::new(&bytes).unwrap();
        node_hash_digest_offset(&view, block_id.to_usize())
    };
    let bogus_digest = word(9, 8, 7, 6);

    let mut corrupted = bytes.clone();
    corrupted[digest_offset..digest_offset + 32].copy_from_slice(&word_bytes(bogus_digest));

    let untrusted = UntrustedMastForest::read_from_bytes(&corrupted).unwrap();
    assert_eq!(
        untrusted.validate(),
        Err(MastForestError::HashMismatch {
            node_id: block_id,
            expected: bogus_digest,
            computed: expected_digest,
        })
    );
}

#[test]
fn test_untrusted_forest_rejects_digest_collision_in_wire_hashes() {
    let mut forest = MastForest::new();
    let left_root = block(&mut forest, vec![Operation::Add]);
    let right_root = block(&mut forest, vec![Operation::Mul]);
    forest.make_root(left_root);
    forest.make_root(right_root);

    let left_digest = forest.node_digest(left_root);
    let right_digest = forest.node_digest(right_root);
    assert_ne!(left_digest, right_digest);

    let bytes = forest.to_bytes();
    let left_digest_offset = {
        let view = MastForestWireView::new(&bytes).unwrap();
        node_hash_digest_offset(&view, left_root.to_usize())
    };

    let mut corrupted = bytes.clone();
    corrupted[left_digest_offset..left_digest_offset + 32]
        .copy_from_slice(&word_bytes(right_digest));

    let untrusted = UntrustedMastForest::read_from_bytes(&corrupted).unwrap();
    assert_eq!(
        untrusted.validate(),
        Err(MastForestError::HashMismatch {
            node_id: left_root,
            expected: right_digest,
            computed: left_digest,
        })
    );
}

fn build_group(ops: &[Operation]) -> Felt {
    let mut group = 0u64;
    for (i, op) in ops.iter().enumerate() {
        group |= (op.op_code() as u64) << (OP_BITS * i);
    }
    felt(group)
}

fn make_batch(num_groups: usize, op: Operation) -> OpBatch {
    let ops: Vec<Operation> = (0..num_groups).map(|_| op).collect();
    let mut indptr = [0usize; 9];
    for i in 0..num_groups {
        indptr[i + 1] = i + 1;
    }
    for i in (num_groups + 1)..=8 {
        indptr[i] = indptr[i - 1];
    }
    let mut padding = [false; 8];
    for pad in padding.iter_mut().skip(num_groups) {
        *pad = true;
    }
    let mut groups = [felt(0); 8];
    for group in groups.iter_mut().take(num_groups) {
        *group = build_group(&[op]);
    }
    OpBatch { ops, indptr, padding, groups, num_groups }
}

fn build_malicious_single_block_forest_bytes(push_imm: Felt) -> Vec<u8> {
    let mut forest = MastForest::new();
    let block_id =
        block(&mut forest, vec![Operation::Push(push_imm), Operation::Noop, Operation::Add]);
    forest.make_root(block_id);

    let mut bytes = forest.to_bytes();
    let malicious_packed_indptr = [0x12, 0x00, 0x00, 0x00];
    let (indptr_offset, digest_offset) = locate_single_block_indptr_and_digest_offsets(&bytes);
    assert_eq!(
        &bytes[indptr_offset..indptr_offset + 4],
        &[0x03, 0x00, 0x00, 0x00],
        "unexpected original packed indptr (offset computation likely wrong)"
    );
    bytes[indptr_offset..indptr_offset + 4].copy_from_slice(&malicious_packed_indptr);

    if let Some(digest) = compute_single_block_digest_from_decoded_groups(&bytes) {
        bytes[digest_offset..digest_offset + 32].copy_from_slice(&word_bytes(digest));
    }
    bytes
}

fn locate_single_block_indptr_and_digest_offsets(bytes: &[u8]) -> (usize, usize) {
    let mut offset = 8;
    assert_eq!(read_usize_at(bytes, &mut offset), Ok(1));
    assert_eq!(read_usize_at(bytes, &mut offset), Ok(0));
    let roots = read_usize_at(bytes, &mut offset).unwrap();
    offset += 4 * roots;
    let bb_data_len = read_usize_at(bytes, &mut offset).unwrap();
    let bb_payload_start = offset;
    let bb_payload_end = bb_payload_start + bb_data_len;
    let view = MastForestWireView::new(bytes).unwrap();
    let node_entries_start = view.node_entry_offset();

    let mut entry = [0u8; 8];
    entry.copy_from_slice(&bytes[node_entries_start..node_entries_start + 8]);
    let node_type_u64 = u64::from_le_bytes(entry);
    let discriminant = (node_type_u64 >> 60) as u8;
    assert_eq!(discriminant, 3, "expected a Block node");

    let payload = node_type_u64 & 0x0f_ff_ff_ff_ff_ff_ff_ff;
    assert!(payload <= u32::MAX as u64, "Block ops_offset payload must fit in u32");
    let ops_offset = payload as usize;
    let digest_offset = view.node_hash_offset().unwrap();

    let block_start = bb_payload_start + ops_offset;
    assert!(block_start < bb_payload_end);

    let mut cursor = block_start;
    let ops = read_usize_at(bytes, &mut cursor).unwrap();
    for _ in 0..ops {
        read_operation_at(bytes, &mut cursor).unwrap();
    }
    assert_eq!(read_array_at::<4>(bytes, &mut cursor), Ok([1, 0, 0, 0]));
    (cursor, digest_offset)
}

fn compute_single_block_digest_from_decoded_groups(bytes: &[u8]) -> Option<Word> {
    let forest = MastForest::read_from_bytes(bytes).ok()?;
    let op_groups: Vec<Felt> =
        forest.nodes[0].op_batches()?.iter().flat_map(|batch| batch.groups).collect();
    Some(hash_elements(&op_groups))
}

fn forest_of_batches(op_batches: Vec<OpBatch>) -> MastForest {
    let op_groups: Vec<Felt> = op_batches.iter().flat_map(|batch| batch.groups).collect();
    let digest = hash_elements(&op_groups);
    let mut forest = MastForest::new();
    let block_id = node(&mut forest, NodeKind::Block(op_batches));
    assert_eq!(forest.node_digest(block_id), digest);
    forest.make_root(block_id);
    forest
}

#[test]
fn test_untrusted_forest_rejects_non_full_prefix_batch() {
    let forest =
        forest_of_batches(vec![make_batch(4, Operation::Add), make_batch(2, Operation::Mul)]);
    let bytes = forest.to_bytes();
    let untrusted = UntrustedMastForest::read_from_bytes(&bytes).unwrap();
    assert!(matches!(untrusted.validate(), Err(MastForestError::InvalidBatchPadding(_, _))));
}

#[test]
fn test_untrusted_forest_accepts_full_prefix_batch() {
    let forest =
        forest_of_batches(vec![make_batch(8, Operation::Add), make_batch(4, Operation::Mul)]);
    let bytes = forest.to_bytes();
    let untrusted = UntrustedMastForest::read_from_bytes(&bytes).unwrap();
    assert!(untrusted.validate().is_ok(), "full prefix batches should validate");
}

#[test]
fn test_untrusted_forest_rejects_basic_block_indptr_that_breaks_push_immediate_commitment() {
    let imm_a = felt(0xdead_beef_dead_beef);
    let imm_b = felt(0xfeed_face_feed_face);

    let bytes_a = build_malicious_single_block_forest_bytes(imm_a);
    let bytes_b = build_malicious_single_block_forest_bytes(imm_b);

    for bytes in [bytes_a, bytes_b] {
        let untrusted = UntrustedMastForest::read_from_bytes(&bytes).unwrap();
        match untrusted.validate() {
            Err(MastForestError::Deserialization(err)) => {
                assert!(err.message().contains("push immediate"))
            },
            other => panic!("unexpected validation result: {other:?}"),
        }
    }
}

#[test]
fn test_untrusted_forest_validates_all_node_types() {
    let forest = canonicalized_for_test(&forest_with_all_node_types());
    let bytes = forest.to_bytes();
    let untrusted = UntrustedMastForest::read_from_bytes(&bytes).unwrap();
    let validated = untrusted.validate().unwrap();
    assert_eq!(forest, validated);
}

fn header(flags: u8) -> Vec<u8> {
    vec![0x4d, 0x41, 0x53, 0x54, flags, 0, 0, 4]
}

#[test]
fn test_deserialization_rejects_excessive_node_count() {
    let mut bytes = header(0);
    let excessive_count: usize = MAX_NODES + 1;
    write_count(&mut bytes, excessive_count as u64);
    write_count(&mut bytes, 0);

    let result = MastForest::read_from_bytes(&bytes);
    assert!(result.is_err());
    let err = result.unwrap_err();
    assert!(
        err.message().contains("exceeds maximum"),
        "Expected error about exceeding maximum, got: {err:?}"
    );
}

#[test]
fn test_untrusted_deserialization_rejects_node_count_above_budget_bound() {
    let mut bytes = header(FLAG_HASHLESS);
    write_count(&mut bytes, 2);
    write_count(&mut bytes, 0);

    let result = UntrustedMastForest::read_from_bytes_with_options(
        &bytes,
        UntrustedMastForestReadOptions::new().with_wire_byte_budget(bytes.len()),
    );
    let msg = message(result);
    assert!(
        msg.contains("node count 2 exceeds reader allocation bound"),
        "Expected budget-bound node count error, got: {msg}"
    );
}

fn small_join_forest() -> MastForest {
    let mut forest = MastForest::new();
    let left = block(&mut forest, vec![Operation::Add]);
    let right = block(&mut forest, vec![Operation::Mul]);
    let root = node(&mut forest, NodeKind::Join(left, right));
    forest.make_root(root);
    forest
}

#[test]
fn test_untrusted_hashless_validation_respects_custom_allocation_budget() {
    let bytes = hashless(&small_join_forest());

    let untrusted = UntrustedMastForest::read_from_bytes_with_options(
        &bytes,
        UntrustedMastForestReadOptions::new()
            .with_wire_byte_budget(bytes.len())
            .with_validation_allocation_budget(bytes.len()),
    )
    .unwrap();
    let result = untrusted.validate();
    assert!(result.is_err());
    let err = result.unwrap_err();
    assert!(
        err.message().contains("remaining untrusted allocation budget"),
        "Expected validation-allocation budget error, got: {err:?}"
    );
}

#[test]
fn test_untrusted_payload_does_not_allocate_debug_info_scaffolding() {
    let forest = small_join_forest();
    let bytes = forest.to_bytes();

    let validation_budget = (forest.num_nodes() + 1) * 8 - 1;
    let untrusted = UntrustedMastForest::read_from_bytes_with_options(
        &bytes,
        UntrustedMastForestReadOptions::new()
            .with_wire_byte_budget(bytes.len())
            .with_validation_allocation_budget(validation_budget),
    )
    .expect("normal reads should not allocate debug-info scaffolding");
    untrusted
        .validate()
        .expect("validation should fit the budget previously consumed by debug scaffolding");
}

#[test]
fn reads_beyond_the_wire_budget_are_refused() {
    let bytes = serialized_single_block_forest();
    let result = UntrustedMastForest::read_from_bytes_with_options(
        &bytes,
        UntrustedMastForestReadOptions::new().with_wire_byte_budget(bytes.len() - 1),
    );
    assert!(result.is_err());
}

#[test]
fn allocations_are_charged_once() {
    let mut budget = 20;
    assert_eq!(reserve_allocation::<u64>(&mut budget, 2, AllocationLabel::DigestSlots), Ok(()));
    assert_eq!(budget, 4);
    assert_eq!(
        message(reserve_allocation::<u64>(&mut budget, 1, AllocationLabel::DigestSlots)),
        "digest slot table requires 8 bytes, exceeding the remaining untrusted allocation budget of 4 bytes"
    );
    assert_eq!(budget, 4);
    assert_eq!(
        message(reserve_allocation::<u64>(&mut budget, usize::MAX, AllocationLabel::RebuiltDigests)),
        "rebuilt digest table size overflow"
    );
    assert_eq!(default_untrusted_allocation_budget(10), 70);
    assert_eq!(default_untrusted_allocation_budget(usize::MAX), usize::MAX);
}

#[test]
fn digests_depend_on_what_is_hashed() {
    let forest = small_join_forest();
    let left = forest.node_digest(MastNodeId(0));
    let right = forest.node_digest(MastNodeId(1));
    let join = forest.node_digest(MastNodeId(2));
    assert_eq!(join, merge_in_domain(&left, &right, JOIN_DOMAIN));
    assert_ne!(join, merge_in_domain(&right, &left, JOIN_DOMAIN));
    assert_ne!(join, merge_in_domain(&left, &right, JOIN_DOMAIN + 1));
    assert_ne!(join, left);
    assert_ne!(hash_elements(&[felt(1), felt(2)]), hash_elements(&[felt(2), felt(1)]));
    assert_ne!(hash_elements(&[felt(1), felt(2), felt(3), felt(4)]), word(1, 2, 3, 4));
    for element in join.as_elements() {
        assert!(element.as_canonical_u64() < MODULUS);
    }
}

#[test]
fn advice_maps_keep_one_entry_per_key_in_order() {
    let mut map = AdviceMap::new();
    map.insert(word(5, 0, 0, 0), vec![felt(1)]);
    map.insert(word(0, 0, 0, 1), vec![felt(2)]);
    map.insert(word(4, 0, 0, 0), vec![felt(3)]);
    map.insert(word(5, 0, 0, 0), vec![felt(4), felt(5)]);
    let keys: Vec<Word> = map.entries.iter().map(|entry| entry.key).collect();
    assert_eq!(keys, vec![word(4, 0, 0, 0), word(5, 0, 0, 0), word(0, 0, 0, 1)]);
    assert_eq!(map.get(&word(5, 0, 0, 0)), Some(&vec![felt(4), felt(5)]));
}

#[test]
fn truncated_counts_are_refused() {
    for value in [0, 0x7f, 0x80, 0x3fff, 0x4000, u32::MAX as u64, u64::MAX] {
        let mut bytes = Vec::new();
        write_count(&mut bytes, value);
        for k in 0..bytes.len() {
            let mut offset = 0;
            assert!(matches!(
                read_integer_at(&bytes[..k], &mut offset),
                Err(DeserializationError::UnexpectedEOF)
            ));
        }
    }
}

#[test]
fn views_of_forests_without_roots_agree_with_what_was_read() {
    let mut forest = MastForest::new();
    block(&mut forest, vec![Operation::Add]);
    let bytes = forest.to_bytes();
    let materialized =
        MastForest::read_view_from_bytes(&bytes, MastForestReadMode::Materialized).unwrap();
    let wire_backed =
        MastForest::read_view_from_bytes(&bytes, MastForestReadMode::WireBacked).unwrap();
    assert_eq!(materialized.procedure_root_count(), 0);
    assert_eq!(wire_backed.procedure_root_count(), 0);
    for index in 0..2 {
        assert_eq!(materialized.node_entry_at(index), wire_backed.node_entry_at(index));
        assert_eq!(materialized.node_digest_at(index), wire_backed.node_digest_at(index));
        assert_eq!(materialized.procedure_root_at(index), wire_backed.procedure_root_at(index));
    }
}

#[test]
fn batches_take_as_many_operations_as_fit() {
    let batches = batch_operations(&vec![Operation::Add; 9]);
    assert_eq!(batches.len(), 1);
    assert_eq!(batches[0].num_groups, 1);
    let batches = batch_operations(&vec![Operation::Add; 10]);
    assert_eq!(batches.len(), 1);
    assert_eq!(batches[0].num_groups, 2);
    let batches = batch_operations(&vec![Operation::Add; 72]);
    assert_eq!(batches.len(), 1);
    assert_eq!(batches[0].num_groups, 8);
    let batches = batch_operations(&vec![Operation::Add; 73]);
    assert_eq!(batches.len(), 2);
    assert_eq!(batches[1].num_groups, 1);
    let batches = batch_operations(&vec![Operation::Push(felt(1)); 8]);
    assert_eq!(batches.len(), 2);
}
