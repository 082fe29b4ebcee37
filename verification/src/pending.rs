//! Execution nodes while a forest is being built, and the keys under which they are shared.

use vstd::prelude::*;

use crate::batch::{models, raw_of, BatchModel, OpBatch};
use crate::block::writable;
use crate::bytes::{
    law_le_round_trip, le_bytes, le_integer, le_value, lemma_le_bytes_len, lemma_pow256_values,
    write_le,
};
use crate::debug_info::{
    DebugSourceAsmOp, DebugSourceCallFrame, DebugSourceInlineCall, DebugSourceVar,
};
use crate::felt::{Felt, Word};
use crate::hasher::{hash_elements, hash_elements_spec};
use crate::node::{copy_batches, MastNode, NodeKind};
use crate::op_index::{adjusted, boundaries, padding_boundaries, raw_operations};
use crate::operation::Operation;

verus! {

/// Domain of block keys that cover error codes.
pub const BASIC_BLOCK_ERROR_CODE_KEY_DOMAIN: u64 = 0x2473_0001;

/// Domain of control-node keys that cover child keys.
pub const CHILD_KEY_DOMAIN: u64 = 0x2473_0002;

/// Domain of block keys that cover the layout of source indices.
pub const BASIC_BLOCK_SOURCE_LAYOUT_KEY_DOMAIN: u64 = 0x2473_0003;

/// A node of the forest under construction. It keeps its meaning until the forest is built.
#[derive(Clone, Copy, PartialEq, Eq, PartialOrd, Ord, Structural, Debug)]
pub struct MastNodeRef(pub u32);

/// A source occurrence of a node of the forest under construction.
#[derive(Clone, Copy, PartialEq, Eq, PartialOrd, Ord, Structural, Debug)]
pub struct SourceNodeRef(pub u32);

/// One use of a shared execution node together with its own source occurrence.
#[derive(Clone, Copy, PartialEq, Eq, Structural, Debug)]
pub struct MastNodeUse {
    pub node_ref: MastNodeRef,
    pub source_ref: SourceNodeRef,
}

impl MastNodeUse {
    pub fn new(node_ref: MastNodeRef, source_ref: SourceNodeRef) -> (node_use: MastNodeUse)
        ensures
            node_use.node_ref == node_ref,
            node_use.source_ref == source_ref,
    {
        MastNodeUse { node_ref, source_ref }
    }

    pub fn node_ref(self) -> (node_ref: MastNodeRef)
        ensures
            node_ref == self.node_ref,
    {
        self.node_ref
    }

    pub fn source_ref(self) -> (source_ref: SourceNodeRef)
        ensures
            source_ref == self.source_ref,
    {
        self.source_ref
    }
}

/// What a pending node executes. Its children stand beside it.
pub enum PendingMastNodeKind {
    BasicBlock { op_batches: Vec<OpBatch> },
    Join,
    Split,
    Loop,
    Call { is_syscall: bool },
    Dyn { is_dyncall: bool },
    External,
}

/// The contents of a [`PendingMastNodeKind`].
pub ghost enum PendingKind {
    BasicBlock(Seq<BatchModel>),
    Join,
    Split,
    Loop,
    Call(bool),
    Dyn(bool),
    External,
}

/// The names of the kinds of nodes.
#[derive(Clone, Copy, PartialEq, Eq, Structural, Debug)]
pub enum KindName {
    BasicBlock,
    Join,
    Split,
    Loop,
    Call,
    Dyn,
    External,
}

impl PendingKind {
    pub open spec fn name(self) -> KindName {
        match self {
            PendingKind::BasicBlock(_) => KindName::BasicBlock,
            PendingKind::Join => KindName::Join,
            PendingKind::Split => KindName::Split,
            PendingKind::Loop => KindName::Loop,
            PendingKind::Call(_) => KindName::Call,
            PendingKind::Dyn(_) => KindName::Dyn,
            PendingKind::External => KindName::External,
        }
    }

    /// How many children a node of this kind has.
    pub open spec fn arity(self) -> nat {
        match self {
            PendingKind::Join => 2,
            PendingKind::Split => 2,
            PendingKind::Loop => 1,
            PendingKind::Call(_) => 1,
            _ => 0,
        }
    }

    /// The batches of a block can be written, and there is at least one.
    pub open spec fn wf(self) -> bool {
        match self {
            PendingKind::BasicBlock(batches) => writable(batches) && batches.len() > 0,
            _ => true,
        }
    }
}

impl PendingMastNodeKind {
    pub open spec fn view(&self) -> PendingKind {
        match self {
            PendingMastNodeKind::BasicBlock { op_batches } => PendingKind::BasicBlock(
                models(op_batches@),
            ),
            PendingMastNodeKind::Join => PendingKind::Join,
            PendingMastNodeKind::Split => PendingKind::Split,
            PendingMastNodeKind::Loop => PendingKind::Loop,
            PendingMastNodeKind::Call { is_syscall } => PendingKind::Call(*is_syscall),
            PendingMastNodeKind::Dyn { is_dyncall } => PendingKind::Dyn(*is_dyncall),
            PendingMastNodeKind::External => PendingKind::External,
        }
    }

    pub fn name(&self) -> (name: KindName)
        ensures
            name == self@.name(),
    {
        match self {
            PendingMastNodeKind::BasicBlock { .. } => KindName::BasicBlock,
            PendingMastNodeKind::Join => KindName::Join,
            PendingMastNodeKind::Split => KindName::Split,
            PendingMastNodeKind::Loop => KindName::Loop,
            PendingMastNodeKind::Call { .. } => KindName::Call,
            PendingMastNodeKind::Dyn { .. } => KindName::Dyn,
            PendingMastNodeKind::External => KindName::External,
        }
    }

    /// The kind of a finished node.
    pub fn from_node(node: &MastNode) -> (kind: PendingMastNodeKind)
        ensures
            kind@ == pending_kind(node@.kind),
    {
        match &node.kind {
            NodeKind::Block(batches) => PendingMastNodeKind::BasicBlock {
                op_batches: copy_batches(batches),
            },
            NodeKind::Join(..) => PendingMastNodeKind::Join,
            NodeKind::Split(..) => PendingMastNodeKind::Split,
            NodeKind::Loop(_) => PendingMastNodeKind::Loop,
            NodeKind::Call(_) => PendingMastNodeKind::Call { is_syscall: false },
            NodeKind::SysCall(_) => PendingMastNodeKind::Call { is_syscall: true },
            NodeKind::Dyn => PendingMastNodeKind::Dyn { is_dyncall: false },
            NodeKind::Dyncall => PendingMastNodeKind::Dyn { is_dyncall: true },
            NodeKind::External => PendingMastNodeKind::External,
        }
    }

    pub fn basic_block_op_batches(&self) -> (batches: Option<&Vec<OpBatch>>)
        ensures
            match self@ {
                PendingKind::BasicBlock(model) => batches is Some && models(batches->0@) == model,
                _ => batches is None,
            },
    {
        match self {
            PendingMastNodeKind::BasicBlock { op_batches } => Some(op_batches),
            _ => None,
        }
    }

    pub fn is_basic_block(&self) -> (res: bool)
        ensures
            res == (self@ is BasicBlock),
    {
        match self {
            PendingMastNodeKind::BasicBlock { .. } => true,
            _ => false,
        }
    }

    pub fn is_external(&self) -> (res: bool)
        ensures
            res == (self@ is External),
    {
        match self {
            PendingMastNodeKind::External => true,
            _ => false,
        }
    }

    pub fn copy(&self) -> (copy: PendingMastNodeKind)
        ensures
            copy@ == self@,
    {
        match self {
            PendingMastNodeKind::BasicBlock { op_batches } => PendingMastNodeKind::BasicBlock {
                op_batches: copy_batches(op_batches),
            },
            PendingMastNodeKind::Join => PendingMastNodeKind::Join,
            PendingMastNodeKind::Split => PendingMastNodeKind::Split,
            PendingMastNodeKind::Loop => PendingMastNodeKind::Loop,
            PendingMastNodeKind::Call { is_syscall } => PendingMastNodeKind::Call {
                is_syscall: *is_syscall,
            },
            PendingMastNodeKind::Dyn { is_dyncall } => PendingMastNodeKind::Dyn {
                is_dyncall: *is_dyncall,
            },
            PendingMastNodeKind::External => PendingMastNodeKind::External,
        }
    }
}

/// The kind that a finished node has while it is pending.
pub open spec fn pending_kind(kind: crate::node::KindModel) -> PendingKind {
    match kind {
        crate::node::KindModel::Block(batches) => PendingKind::BasicBlock(batches),
        crate::node::KindModel::Join(..) => PendingKind::Join,
        crate::node::KindModel::Split(..) => PendingKind::Split,
        crate::node::KindModel::Loop(_) => PendingKind::Loop,
        crate::node::KindModel::Call(_) => PendingKind::Call(false),
        crate::node::KindModel::SysCall(_) => PendingKind::Call(true),
        crate::node::KindModel::Dyn => PendingKind::Dyn(false),
        crate::node::KindModel::Dyncall => PendingKind::Dyn(true),
        crate::node::KindModel::External => PendingKind::External,
    }
}

/// A node before its position in the forest is known.
pub struct PendingMastNode {
    pub key: Word,
    pub digest: Word,
    pub kind: PendingMastNodeKind,
    pub child_refs: Vec<MastNodeRef>,
}

/// The contents of a [`PendingMastNode`].
pub ghost struct PendingModel {
    pub key: Word,
    pub digest: Word,
    pub kind: PendingKind,
    pub child_refs: Seq<MastNodeRef>,
}

impl PendingMastNode {
    pub open spec fn view(&self) -> PendingModel {
        PendingModel {
            key: self.key,
            digest: self.digest,
            kind: self.kind@,
            child_refs: self.child_refs@,
        }
    }
}

pub open spec fn pending_models(nodes: Seq<PendingMastNode>) -> Seq<PendingModel> {
    Seq::new(nodes.len(), |i: int| nodes[i]@)
}

/// A node that is about to be interned, with the rows of its source occurrence.
pub struct PendingMastNodeDraft {
    pub digest: Word,
    pub kind: PendingMastNodeKind,
    pub child_refs: Vec<MastNodeRef>,
    pub asm_ops: Vec<DebugSourceAsmOp>,
    pub debug_vars: Vec<DebugSourceVar>,
    pub inline_calls: Vec<DebugSourceInlineCall>,
    pub call_frames: Vec<DebugSourceCallFrame>,
    pub functions: Vec<u32>,
}

/// The contents of a [`PendingMastNodeDraft`].
pub ghost struct DraftModel {
    pub digest: Word,
    pub kind: PendingKind,
    pub child_refs: Seq<MastNodeRef>,
    pub asm_ops: Seq<DebugSourceAsmOp>,
    pub debug_vars: Seq<DebugSourceVar>,
    pub inline_calls: Seq<DebugSourceInlineCall>,
    pub call_frames: Seq<DebugSourceCallFrame>,
    pub functions: Seq<u32>,
}

impl PendingMastNodeDraft {
    pub open spec fn view(&self) -> DraftModel {
        DraftModel {
            digest: self.digest,
            kind: self.kind@,
            child_refs: self.child_refs@,
            asm_ops: self.asm_ops@,
            debug_vars: self.debug_vars@,
            inline_calls: self.inline_calls@,
            call_frames: self.call_frames@,
            functions: self.functions@,
        }
    }

    /// A draft without source rows.
    pub fn new(kind: PendingMastNodeKind, digest: Word, child_refs: Vec<MastNodeRef>) -> (draft:
        PendingMastNodeDraft)
        ensures
            draft@ == bare_draft(kind@, digest, child_refs@),
    {
        let draft = PendingMastNodeDraft {
            digest,
            kind,
            child_refs,
            asm_ops: Vec::new(),
            debug_vars: Vec::new(),
            inline_calls: Vec::new(),
            call_frames: Vec::new(),
            functions: Vec::new(),
        };
        assert(draft.asm_ops@ =~= Seq::empty());
        assert(draft.debug_vars@ =~= Seq::empty());
        assert(draft.inline_calls@ =~= Seq::empty());
        assert(draft.call_frames@ =~= Seq::empty());
        assert(draft.functions@ =~= Seq::empty());
        draft
    }
}

/// A draft without source rows.
pub open spec fn bare_draft(
    kind: PendingKind,
    digest: Word,
    child_refs: Seq<MastNodeRef>,
) -> DraftModel {
    DraftModel {
        digest,
        kind,
        child_refs,
        asm_ops: Seq::empty(),
        debug_vars: Seq::empty(),
        inline_calls: Seq::empty(),
        call_frames: Seq::empty(),
        functions: Seq::empty(),
    }
}

// KEYS
// ================================================================================================

pub open spec fn word_elements(word: Word) -> Seq<Felt> {
    seq![word.w0, word.w1, word.w2, word.w3]
}

/// The keys of the first `k` children, one behind the other.
pub open spec fn child_key_elements(
    nodes: Seq<PendingModel>,
    child_refs: Seq<MastNodeRef>,
    k: nat,
) -> Seq<Felt>
    decreases k,
{
    if k == 0 {
        Seq::empty()
    } else {
        child_key_elements(nodes, child_refs, (k - 1) as nat) + word_elements(
            nodes[child_refs[k - 1].0 as int].key,
        )
    }
}

/// Some child is not known by its digest alone.
pub open spec fn has_keyed_child(nodes: Seq<PendingModel>, child_refs: Seq<MastNodeRef>) -> bool {
    exists|i: int|
        0 <= i < child_refs.len() && nodes[(#[trigger] child_refs[i]).0 as int].key
            != nodes[child_refs[i].0 as int].digest
}

/// The key of a control node: its digest, unless a child is not known by its digest alone.
pub open spec fn node_key(
    nodes: Seq<PendingModel>,
    digest: Word,
    child_refs: Seq<MastNodeRef>,
) -> Word {
    if has_keyed_child(nodes, child_refs) {
        hash_elements_spec(
            seq![Felt { value: CHILD_KEY_DOMAIN }] + word_elements(digest) + child_key_elements(
                nodes,
                child_refs,
                child_refs.len(),
            ),
        )
    } else {
        digest
    }
}

/// The error codes among the first `k` operations: the index of each operation that carries one,
/// and the operation.
pub open spec fn error_code_data(ops: Seq<Operation>, k: nat) -> Seq<u8>
    decreases k,
{
    if k == 0 {
        Seq::empty()
    } else if ops[k - 1].error_code_spec() is Some {
        error_code_data(ops, (k - 1) as nat) + (le_bytes((k - 1) as nat, 8) + ops[k - 1].bytes())
    } else {
        error_code_data(ops, (k - 1) as nat)
    }
}

/// The first `k` boundaries, eight bytes each.
pub open spec fn boundary_data(bounds: Seq<nat>, k: nat) -> Seq<u8>
    decreases k,
{
    if k == 0 {
        Seq::empty()
    } else {
        boundary_data(bounds, (k - 1) as nat) + le_bytes(bounds[k - 1], 8)
    }
}

pub open spec fn has_noop(ops: Seq<Operation>) -> bool {
    exists|i: int| 0 <= i < ops.len() && ops[i] == Operation::Noop
}

/// The layout of a block's source indices: the number of operations without padding, and for each
/// padding operation how many of them come before it. Only a block with a `Noop` of its own needs
/// it, since nothing else can be mistaken for padding.
pub open spec fn source_layout_data(batches: Seq<BatchModel>) -> Option<Seq<u8>> {
    if has_noop(raw_of(batches)) {
        let bounds = boundaries(batches);
        Some(le_bytes(raw_of(batches).len(), 8) + boundary_data(bounds, bounds.len()))
    } else {
        None
    }
}

/// Bytes as field elements, four bytes each, lowest byte first.
pub open spec fn packed_elements(data: Seq<u8>) -> Seq<Felt> {
    Seq::new(
        ((data.len() + 3) / 4) as nat,
        |i: int|
            Felt {
                value: le_value(
                    data.subrange(
                        4 * i,
                        if 4 * i + 4 <= data.len() {
                            4 * i + 4
                        } else {
                            data.len() as int
                        },
                    ),
                ) as u64,
            },
    )
}

/// A key refined by data.
pub open spec fn refined_key(domain: u64, base: Word, data: Seq<u8>) -> Word {
    hash_elements_spec(
        seq![Felt { value: domain }] + word_elements(base) + seq![
            Felt { value: (data.len() % 0x1_0000_0000) as u64 },
            Felt { value: (data.len() / 0x1_0000_0000) as u64 },
        ] + packed_elements(data),
    )
}

/// The key of a basic block: its digest, refined by its error codes and by the layout of its
/// source indices where the digest does not tell them.
pub open spec fn block_key(digest: Word, batches: Seq<BatchModel>) -> Word {
    let ops = raw_of(batches);
    let data = error_code_data(ops, ops.len());
    let key = if data.len() == 0 {
        digest
    } else {
        refined_key(BASIC_BLOCK_ERROR_CODE_KEY_DOMAIN, digest, data)
    };
    match source_layout_data(batches) {
        None => key,
        Some(layout) => refined_key(BASIC_BLOCK_SOURCE_LAYOUT_KEY_DOMAIN, key, layout),
    }
}

/// The key under which a node is shared.
pub open spec fn record_key(
    nodes: Seq<PendingModel>,
    digest: Word,
    kind: PendingKind,
    child_refs: Seq<MastNodeRef>,
) -> Word {
    match kind {
        PendingKind::BasicBlock(batches) => block_key(digest, batches),
        _ => node_key(nodes, digest, child_refs),
    }
}

fn push_word(elements: &mut Vec<Felt>, word: Word)
    ensures
        final(elements)@ == old(elements)@ + word_elements(word),
{
    let ghost before = elements@;
    elements.push(word.w0);
    elements.push(word.w1);
    elements.push(word.w2);
    elements.push(word.w3);
    assert(elements@ =~= before + word_elements(word));
}

/// The key of a control node.
pub fn key_from_pending_refs(
    nodes: &Vec<PendingMastNode>,
    node_digest: Word,
    child_refs: &Vec<MastNodeRef>,
) -> (key: Word)
    requires
        forall|i: int| 0 <= i < child_refs@.len() ==> (#[trigger] child_refs@[i]).0 < nodes@.len(),
    ensures
        key == node_key(pending_models(nodes@), node_digest, child_refs@),
{
    let ghost models = pending_models(nodes@);
    let mut keyed = false;
    let mut elements: Vec<Felt> = Vec::new();
    elements.push(Felt { value: CHILD_KEY_DOMAIN });
    push_word(&mut elements, node_digest);
    let ghost head = elements@;
    let mut i: usize = 0;
    assert(head + child_key_elements(models, child_refs@, 0) =~= head);
    while i < child_refs.len()
        invariant
            i <= child_refs@.len(),
            models == pending_models(nodes@),
            forall|i: int|
                0 <= i < child_refs@.len() ==> (#[trigger] child_refs@[i]).0 < nodes@.len(),
            elements@ == head + child_key_elements(models, child_refs@, i as nat),
            keyed <==> exists|j: int|
                0 <= j < i && models[(#[trigger] child_refs@[j]).0 as int].key
                    != models[child_refs@[j].0 as int].digest,
        decreases child_refs@.len() - i,
    {
        let child = &nodes[child_refs[i].0 as usize];
        assert(child@ == models[child_refs@[i as int].0 as int]);
        if child.key != child.digest {
            keyed = true;
        }
        push_word(&mut elements, child.key);
        assert(elements@ =~= head + child_key_elements(models, child_refs@, (i + 1) as nat));
        i += 1;
    }
    if keyed {
        assert(head =~= seq![Felt { value: CHILD_KEY_DOMAIN }] + word_elements(node_digest));
        hash_elements(elements.as_slice())
    } else {
        node_digest
    }
}

/// The error codes of a block with the indices of their operations.
pub fn serialize_basic_block_error_codes(ops: &Vec<Operation>) -> (data: Vec<u8>)
    ensures
        data@ == error_code_data(ops@, ops@.len()),
{
    let mut data: Vec<u8> = Vec::new();
    let mut i: usize = 0;
    while i < ops.len()
        invariant
            i <= ops@.len(),
            data@ == error_code_data(ops@, i as nat),
        decreases ops@.len() - i,
    {
        if ops[i].error_code().is_some() {
            let ghost before = data@;
            write_le(&mut data, i as u64, 8);
            ops[i].write_into(&mut data);
            assert(data@ =~= before + (le_bytes(i as nat, 8) + ops@[i as int].bytes()));
        }
        i += 1;
    }
    data
}

/// The layout of a block's source indices, where the block needs it in its key.
pub fn serialize_basic_block_source_layout(
    batches: &Vec<OpBatch>,
    raw_ops: &Vec<Operation>,
) -> (data: Option<Vec<u8>>)
    requires
        writable(models(batches@)),
        raw_ops@ == raw_of(models(batches@)),
    ensures
        match source_layout_data(models(batches@)) {
            Some(layout) => data is Some && data->0@ == layout,
            None => data is None,
        },
{
    let ghost bs = models(batches@);
    let mut explicit = false;
    let mut i: usize = 0;
    while i < raw_ops.len()
        invariant
            i <= raw_ops@.len(),
            explicit <==> exists|j: int| 0 <= j < i && raw_ops@[j] == Operation::Noop,
        decreases raw_ops@.len() - i,
    {
        if let Operation::Noop = raw_ops[i] {
            explicit = true;
        }
        i += 1;
    }
    if !explicit {
        return None;
    }
    let mut data: Vec<u8> = Vec::new();
    write_le(&mut data, raw_ops.len() as u64, 8);
    let bounds = padding_boundaries(batches);
    let ghost b = boundaries(bs);
    let ghost head = data@;
    let mut i: usize = 0;
    assert(head + boundary_data(b, 0) =~= head);
    while i < bounds.len()
        invariant
            i <= bounds@.len() == b.len(),
            forall|k: int| 0 <= k < bounds@.len() ==> #[trigger] bounds@[k] == b[k],
            data@ == head + boundary_data(b, i as nat),
        decreases bounds@.len() - i,
    {
        write_le(&mut data, bounds[i], 8);
        assert(data@ =~= head + boundary_data(b, (i + 1) as nat));
        i += 1;
    }
    assert(head =~= le_bytes(raw_of(bs).len(), 8));
    Some(data)
}

/// Refines a key by data.
pub fn hash_basic_block_key_data(domain: u64, base_key: Word, data: &Vec<u8>) -> (key: Word)
    ensures
        key == refined_key(domain, base_key, data@),
{
    let len: u64 = data.len() as u64;
    let mut elements: Vec<Felt> = Vec::new();
    elements.push(Felt { value: domain });
    push_word(&mut elements, base_key);
    elements.push(Felt { value: len % 0x1_0000_0000 });
    elements.push(Felt { value: len / 0x1_0000_0000 });
    let ghost head = elements@;
    let ghost packed = packed_elements(data@);
    let mut at: usize = 0;
    let mut i: usize = 0;
    while at < data.len()
        invariant
            i <= packed.len(),
            packed == packed_elements(data@),
            at < data@.len() ==> at == 4 * i,
            at >= data@.len() ==> i == packed.len(),
            at <= data@.len(),
            elements@ =~= head + packed.take(i as int),
        decreases data@.len() - at,
    {
        let end: usize = if data.len() - at >= 4 {
            at + 4
        } else {
            data.len()
        };
        let chunk = vstd::slice::slice_subrange(data.as_slice(), at, end);
        elements.push(Felt { value: le_integer(chunk) });
        assert(packed[i as int].value == le_value(chunk@));
        at = end;
        i += 1;
    }
    assert(packed.take(i as int) =~= packed);
    assert(elements@ =~= seq![Felt { value: domain }] + word_elements(base_key) + seq![
        Felt { value: len % 0x1_0000_0000 },
        Felt { value: len / 0x1_0000_0000 },
    ] + packed);
    hash_elements(elements.as_slice())
}

/// The key of a basic block.
pub fn key_for_pending_basic_block(block_digest: Word, op_batches: &Vec<OpBatch>) -> (key: Word)
    requires
        writable(models(op_batches@)),
    ensures
        key == block_key(block_digest, models(op_batches@)),
{
    let raw_ops = raw_operations(op_batches);
    let error_codes = serialize_basic_block_error_codes(&raw_ops);
    let error_code_key = if error_codes.len() == 0 {
        block_digest
    } else {
        hash_basic_block_key_data(BASIC_BLOCK_ERROR_CODE_KEY_DOMAIN, block_digest, &error_codes)
    };
    match serialize_basic_block_source_layout(op_batches, &raw_ops) {
        None => error_code_key,
        Some(layout) => hash_basic_block_key_data(
            BASIC_BLOCK_SOURCE_LAYOUT_KEY_DOMAIN,
            error_code_key,
            &layout,
        ),
    }
}

/// The key under which a node is shared.
pub fn key_for_pending_record(
    nodes: &Vec<PendingMastNode>,
    digest: Word,
    kind: &PendingMastNodeKind,
    child_refs: &Vec<MastNodeRef>,
) -> (key: Word)
    requires
        kind@.wf(),
        forall|i: int| 0 <= i < child_refs@.len() ==> (#[trigger] child_refs@[i]).0 < nodes@.len(),
    ensures
        key == record_key(pending_models(nodes@), digest, kind@, child_refs@),
{
    match kind {
        PendingMastNodeKind::BasicBlock { op_batches } => key_for_pending_basic_block(
            digest,
            op_batches,
        ),
        _ => key_from_pending_refs(nodes, digest, child_refs),
    }
}

// WHAT KEYS TELL APART
// ================================================================================================

proof fn lemma_eight_bytes(n: nat)
    requires
        n <= u64::MAX,
    ensures
        le_value(le_bytes(n, 8)) == n,
        le_bytes(n, 8).len() == 8,
{
    lemma_pow256_values();
    law_le_round_trip(n, 8);
    lemma_le_bytes_len(n, 8);
}

/// An operation whose error code is no part of its digest.
pub open spec fn names_an_error(op: Operation) -> bool {
    op is Assert || op is U32assert2 || op is MpVerify
}

proof fn lemma_error_code_record(op: Operation, other: Operation, i: nat, j: nat)
    requires
        names_an_error(op),
        names_an_error(other),
        i <= u64::MAX,
        j <= u64::MAX,
        le_bytes(i, 8) + op.bytes() == le_bytes(j, 8) + other.bytes(),
    ensures
        i == j,
        op == other,
{
    let a = le_bytes(i, 8) + op.bytes();
    let b = le_bytes(j, 8) + other.bytes();
    lemma_eight_bytes(i);
    lemma_eight_bytes(j);
    assert(le_bytes(i, 8) =~= a.take(8));
    assert(le_bytes(j, 8) =~= b.take(8));
    assert(op.bytes() =~= a.skip(8));
    assert(other.bytes() =~= b.skip(8));
    let (x, y) = (op.error_code_spec()->0.value, other.error_code_spec()->0.value);
    reveal(Operation::bytes);
    reveal(Operation::code);
    lemma_eight_bytes(x as nat);
    lemma_eight_bytes(y as nat);
    assert(le_bytes(x as nat, 8) =~= op.bytes().skip(1));
    assert(le_bytes(y as nat, 8) =~= other.bytes().skip(1));
    assert(op.bytes()[0] == other.bytes()[0]);
}

proof fn lemma_error_codes_told(a: Seq<Operation>, m: nat, b: Seq<Operation>, n: nat)
    requires
        m <= a.len() <= u64::MAX,
        n <= b.len() <= u64::MAX,
        error_code_data(a, m) == error_code_data(b, n),
    ensures
        forall|i: int|
            0 <= i < m && names_an_error(#[trigger] a[i]) ==> i < n && b[i] == a[i],
        forall|i: int|
            0 <= i < n && names_an_error(#[trigger] b[i]) ==> i < m && a[i] == b[i],
    decreases m + n,
{
    if m > 0 && !names_an_error(a[m - 1]) {
        lemma_error_codes_told(a, (m - 1) as nat, b, n);
    } else if n > 0 && !names_an_error(b[n - 1]) {
        lemma_error_codes_told(a, m, b, (n - 1) as nat);
    } else if m > 0 || n > 0 {
        if m > 0 {
            lemma_eight_bytes((m - 1) as nat);
            lemma_eight_bytes(a[m - 1].error_code_spec()->0.value as nat);
        }
        if n > 0 {
            lemma_eight_bytes((n - 1) as nat);
            lemma_eight_bytes(b[n - 1].error_code_spec()->0.value as nat);
        }
        assert(m > 0 && n > 0);
        let x = error_code_data(a, (m - 1) as nat);
        let y = error_code_data(b, (n - 1) as nat);
        let s = le_bytes((m - 1) as nat, 8) + a[m - 1].bytes();
        let t = le_bytes((n - 1) as nat, 8) + b[n - 1].bytes();
        assert(s.len() == 17 && t.len() == 17) by {
            reveal(Operation::bytes);
        }
        assert((x + s).len() == (y + t).len());
        assert(s =~= (x + s).skip(x.len() as int));
        assert(t =~= (y + t).skip(y.len() as int));
        assert(x =~= (x + s).take(x.len() as int));
        assert(y =~= (y + t).take(y.len() as int));
        lemma_error_code_record(a[m - 1], b[n - 1], (m - 1) as nat, (n - 1) as nat);
        lemma_error_codes_told(a, (m - 1) as nat, b, (n - 1) as nat);
    }
}

/// What the key of a block is made of tells its error codes, which its digest does not: operations
/// with the same data have the same error codes at the same places.
pub proof fn law_key_data_tells_error_codes(a: Seq<Operation>, b: Seq<Operation>)
    requires
        a.len() <= u64::MAX,
        b.len() <= u64::MAX,
        error_code_data(a, a.len()) == error_code_data(b, b.len()),
    ensures
        forall|i: int|
            0 <= i < a.len() && names_an_error(#[trigger] a[i]) ==> i < b.len() && b[i] == a[i],
        forall|i: int|
            0 <= i < b.len() && names_an_error(#[trigger] b[i]) ==> i < a.len() && a[i] == b[i],
{
    lemma_error_codes_told(a, a.len(), b, b.len());
}

proof fn lemma_boundaries_told(a: Seq<nat>, b: Seq<nat>, k: nat)
    requires
        k <= a.len(),
        k <= b.len(),
        forall|i: int| 0 <= i < k ==> (#[trigger] a[i]) <= u64::MAX,
        forall|i: int| 0 <= i < k ==> (#[trigger] b[i]) <= u64::MAX,
        boundary_data(a, k) == boundary_data(b, k),
    ensures
        forall|i: int| 0 <= i < k ==> a[i] == b[i],
    decreases k,
{
    if k > 0 {
        let x = boundary_data(a, (k - 1) as nat);
        let y = boundary_data(b, (k - 1) as nat);
        let s = le_bytes(a[k - 1], 8);
        let t = le_bytes(b[k - 1], 8);
        lemma_eight_bytes(a[k - 1]);
        lemma_eight_bytes(b[k - 1]);
        lemma_boundary_data_len(a, (k - 1) as nat);
        lemma_boundary_data_len(b, (k - 1) as nat);
        assert(s =~= (x + s).skip(x.len() as int));
        assert(t =~= (y + t).skip(y.len() as int));
        assert(x =~= (x + s).take(x.len() as int));
        assert(y =~= (y + t).take(y.len() as int));
        lemma_boundaries_told(a, b, (k - 1) as nat);
    }
}

proof fn lemma_boundary_data_len(bounds: Seq<nat>, k: nat)
    ensures
        boundary_data(bounds, k).len() == 8 * k,
    decreases k,
{
    if k > 0 {
        lemma_boundary_data_len(bounds, (k - 1) as nat);
        lemma_le_bytes_len(bounds[k - 1], 8);
    }
}

/// What the key of a block with operations that look like padding is made of tells where padding
/// stands, which its digest does not: blocks with the same data have their operations at the same
/// places. A block without such operations has no such data.
pub proof fn law_key_data_tells_padding(a: Seq<BatchModel>, b: Seq<BatchModel>, raw: nat)
    requires
        raw_of(a).len() <= u64::MAX,
        raw_of(b).len() <= u64::MAX,
        source_layout_data(a) == source_layout_data(b),
    ensures
        raw_of(a).contains(Operation::Noop) == raw_of(b).contains(Operation::Noop),
        source_layout_data(a) is Some == raw_of(a).contains(Operation::Noop),
        raw_of(a).contains(Operation::Noop) ==> raw_of(a).len() == raw_of(b).len() && adjusted(
            a,
            raw,
        ) == adjusted(b, raw),
{
    if source_layout_data(a) is Some {
        let (x, y) = (boundaries(a), boundaries(b));
        let s = le_bytes(raw_of(a).len(), 8);
        let t = le_bytes(raw_of(b).len(), 8);
        lemma_eight_bytes(raw_of(a).len());
        lemma_eight_bytes(raw_of(b).len());
        let p = boundary_data(x, x.len());
        let q = boundary_data(y, y.len());
        assert(s =~= (s + p).take(8));
        assert(t =~= (t + q).take(8));
        assert(p =~= (s + p).skip(8));
        assert(q =~= (t + q).skip(8));
        lemma_boundary_data_len(x, x.len());
        lemma_boundary_data_len(y, y.len());
        crate::op_index::lemma_boundaries(a);
        crate::op_index::lemma_boundaries(b);
        lemma_boundaries_told(x, y, x.len());
        assert(x =~= y);
    }
}

proof fn lemma_child_keys(nodes: Seq<PendingModel>, refs: Seq<MastNodeRef>, k: nat, j: int)
    requires
        0 <= j < k <= refs.len(),
    ensures
        child_key_elements(nodes, refs, k).len() == 4 * k,
        child_key_elements(nodes, refs, k).subrange(4 * j, 4 * j + 4) == word_elements(
            nodes[refs[j].0 as int].key,
        ),
    decreases k,
{
    let before = child_key_elements(nodes, refs, (k - 1) as nat);
    let last = word_elements(nodes[refs[k - 1].0 as int].key);
    let all = child_key_elements(nodes, refs, k);
    if k > 1 {
        lemma_child_keys(nodes, refs, (k - 1) as nat, if j < k - 1 { j } else { 0 });
    }
    assert(before.len() == 4 * (k - 1));
    if j < k - 1 {
        assert(all.subrange(4 * j, 4 * j + 4) =~= before.subrange(4 * j, 4 * j + 4));
    } else {
        assert(all.subrange(4 * j, 4 * j + 4) =~= last);
    }
}

/// The key of a control node is its digest if that tells everything, that is if the keys of all its
/// children are their digests; else the keys of all its children go into it, in their order.
pub proof fn law_child_keys_go_into_the_key(
    nodes: Seq<PendingModel>,
    digest: Word,
    refs: Seq<MastNodeRef>,
)
    ensures
        (forall|j: int|
            0 <= j < refs.len() ==> nodes[(#[trigger] refs[j]).0 as int].key
                == nodes[refs[j].0 as int].digest) ==> node_key(nodes, digest, refs) == digest,
        !(forall|j: int|
            0 <= j < refs.len() ==> nodes[(#[trigger] refs[j]).0 as int].key
                == nodes[refs[j].0 as int].digest) ==> exists|elements: Seq<Felt>| #[trigger]
            hash_elements_spec(elements) == node_key(nodes, digest, refs) && elements.len() == 5 + 4
                * refs.len() && elements.subrange(1, 5) == word_elements(digest) && forall|j: int|
                0 <= j < refs.len() ==> elements.subrange(5 + 4 * j, 9 + 4 * j) == word_elements(
                    nodes[(#[trigger] refs[j]).0 as int].key,
                ),
{
    if has_keyed_child(nodes, refs) {
        let keys = child_key_elements(nodes, refs, refs.len());
        let elements = seq![Felt { value: CHILD_KEY_DOMAIN }] + word_elements(digest) + keys;
        assert(elements.subrange(1, 5) =~= word_elements(digest));
        assert(refs.len() > 0);
        lemma_child_keys(nodes, refs, refs.len(), 0);
        assert forall|j: int| 0 <= j < refs.len() implies elements.subrange(5 + 4 * j, 9 + 4 * j)
            == word_elements(nodes[(#[trigger] refs[j]).0 as int].key) by {
            lemma_child_keys(nodes, refs, refs.len(), j);
            assert(elements.subrange(5 + 4 * j, 9 + 4 * j) =~= keys.subrange(4 * j, 4 * j + 4));
        }
        assert(hash_elements_spec(elements) == node_key(nodes, digest, refs));
    }
}

/// Data of one length that is hashed as the same elements is the same data.
pub proof fn law_packed_data_is_told_apart(a: Seq<u8>, b: Seq<u8>)
    requires
        a.len() == b.len(),
        packed_elements(a) == packed_elements(b),
    ensures
        a == b,
{
    assert forall|i: int| 0 <= i < a.len() implies a[i] == b[i] by {
        let c = i / 4;
        let end = if 4 * c + 4 <= a.len() {
            4 * c + 4
        } else {
            a.len() as int
        };
        let x = a.subrange(4 * c, end);
        let y = b.subrange(4 * c, end);
        assert(packed_elements(a)[c] == packed_elements(b)[c]);
        crate::bytes::lemma_le_value_bound(x);
        crate::bytes::lemma_le_value_bound(y);
        lemma_pow256_values();
        assert(x.len() == 1 || x.len() == 2 || x.len() == 3 || x.len() == 4);
        assert(c < packed_elements(a).len());
        assert(packed_elements(a)[c] == Felt { value: le_value(x) as u64 });
        assert(packed_elements(b)[c] == Felt { value: le_value(y) as u64 });
        assert(le_value(x) <= u32::MAX && le_value(y) <= u32::MAX);
        assert(le_value(x) == le_value(y));
        crate::bytes::lemma_le_value_bytes(x);
        crate::bytes::lemma_le_value_bytes(y);
        assert(x[i - 4 * c] == a[i]);
        assert(y[i - 4 * c] == b[i]);
    }
    assert(a =~= b);
}

/// The name of a kind tells it from every other.
pub proof fn law_names_tell_kinds_apart(kind: PendingKind)
    ensures
        (kind is BasicBlock) == (kind.name() is BasicBlock),
        (kind is Join) == (kind.name() is Join),
        (kind is Split) == (kind.name() is Split),
        (kind is Loop) == (kind.name() is Loop),
        (kind is Call) == (kind.name() is Call),
        (kind is Dyn) == (kind.name() is Dyn),
        (kind is External) == (kind.name() is External),
{
}

/// Keys that are made of different things are made in different domains, which are those of no node.
pub proof fn law_key_domains_differ()
    ensures
        BASIC_BLOCK_ERROR_CODE_KEY_DOMAIN != CHILD_KEY_DOMAIN,
        BASIC_BLOCK_ERROR_CODE_KEY_DOMAIN != BASIC_BLOCK_SOURCE_LAYOUT_KEY_DOMAIN,
        CHILD_KEY_DOMAIN != BASIC_BLOCK_SOURCE_LAYOUT_KEY_DOMAIN,
        BASIC_BLOCK_ERROR_CODE_KEY_DOMAIN >= 128 && CHILD_KEY_DOMAIN >= 128
            && BASIC_BLOCK_SOURCE_LAYOUT_KEY_DOMAIN >= 128,
{
}

/// The key of a block is its digest if no operation of it names an error and none looks like padding.
pub proof fn law_plain_blocks_are_known_by_their_digest(digest: Word, batches: Seq<BatchModel>)
    requires
        forall|i: int|
            0 <= i < raw_of(batches).len() ==> !names_an_error(#[trigger] raw_of(batches)[i])
                && raw_of(batches)[i] != Operation::Noop,
    ensures
        block_key(digest, batches) == digest,
{
    lemma_no_error_codes(raw_of(batches), raw_of(batches).len());
}

proof fn lemma_no_error_codes(ops: Seq<Operation>, k: nat)
    requires
        k <= ops.len(),
        forall|i: int| 0 <= i < ops.len() ==> !names_an_error(#[trigger] ops[i]),
    ensures
        error_code_data(ops, k).len() == 0,
    decreases k,
{
    if k > 0 {
        lemma_no_error_codes(ops, (k - 1) as nat);
        assert(!names_an_error(ops[k - 1]));
    }
}

} // verus!
