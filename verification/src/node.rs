//! The nodes of a MAST forest and their fixed-width wire entries.

use vstd::prelude::*;

use crate::batch::{models, BatchModel, OpBatch};
use crate::error::InvalidValue;
use crate::felt::{Felt, Word};
use crate::hasher::{
    hash_elements, hash_elements_spec, merge_in_domain, merge_in_domain_spec,
};
use crate::operation::Operation;

verus! {

// DOMAINS
// ================================================================================================

/// Domains under which the digests of control nodes are hashed.
pub const SPLIT_DOMAIN: u64 = 84;

pub const LOOP_DOMAIN: u64 = 85;

pub const JOIN_DOMAIN: u64 = 87;

pub const DYN_DOMAIN: u64 = 88;

pub const DYNCALL_DOMAIN: u64 = 92;

pub const SYSCALL_DOMAIN: u64 = 104;

pub const CALL_DOMAIN: u64 = 108;

/// Node ids lie below this bound.
pub const ID_BOUND: u32 = 0x4000_0000;

// NODES
// ================================================================================================

/// The index of a node in its forest.
#[derive(Clone, Copy, PartialEq, Eq, PartialOrd, Ord, Structural, Debug)]
pub struct MastNodeId(pub u32);

impl MastNodeId {
    pub fn new_unchecked(value: u32) -> (id: MastNodeId)
        ensures
            id.0 == value,
    {
        MastNodeId(value)
    }

    pub fn to_usize(&self) -> (index: usize)
        ensures
            index == self.0,
    {
        self.0 as usize
    }
}

/// What a node executes.
#[derive(Clone, PartialEq, Eq, Debug)]
pub enum NodeKind {
    Block(Vec<OpBatch>),
    Join(MastNodeId, MastNodeId),
    Split(MastNodeId, MastNodeId),
    Loop(MastNodeId),
    Call(MastNodeId),
    SysCall(MastNodeId),
    Dyn,
    Dyncall,
    External,
}

/// A node and its digest.
#[derive(Clone, PartialEq, Eq, Debug)]
pub struct MastNode {
    pub kind: NodeKind,
    pub digest: Word,
}

/// The contents of a [`NodeKind`].
pub ghost enum KindModel {
    Block(Seq<BatchModel>),
    Join(MastNodeId, MastNodeId),
    Split(MastNodeId, MastNodeId),
    Loop(MastNodeId),
    Call(MastNodeId),
    SysCall(MastNodeId),
    Dyn,
    Dyncall,
    External,
}

/// The contents of a [`MastNode`].
pub ghost struct NodeModel {
    pub kind: KindModel,
    pub digest: Word,
}

impl NodeKind {
    pub open spec fn view(&self) -> KindModel {
        match self {
            NodeKind::Block(batches) => KindModel::Block(models(batches@)),
            NodeKind::Join(a, b) => KindModel::Join(*a, *b),
            NodeKind::Split(a, b) => KindModel::Split(*a, *b),
            NodeKind::Loop(a) => KindModel::Loop(*a),
            NodeKind::Call(a) => KindModel::Call(*a),
            NodeKind::SysCall(a) => KindModel::SysCall(*a),
            NodeKind::Dyn => KindModel::Dyn,
            NodeKind::Dyncall => KindModel::Dyncall,
            NodeKind::External => KindModel::External,
        }
    }
}

impl MastNode {
    pub open spec fn view(&self) -> NodeModel {
        NodeModel { kind: self.kind@, digest: self.digest }
    }

    pub fn is_external(&self) -> (res: bool)
        ensures
            res == (self@.kind is External),
    {
        match self.kind {
            NodeKind::External => true,
            _ => false,
        }
    }

    pub fn digest(&self) -> (digest: Word)
        ensures
            digest == self@.digest,
    {
        self.digest
    }

    /// The batches of a basic block.
    pub fn op_batches(&self) -> (batches: Option<&Vec<OpBatch>>)
        ensures
            match self@.kind {
                KindModel::Block(model) => batches is Some && models(batches->0@) == model,
                _ => batches is None,
            },
    {
        match &self.kind {
            NodeKind::Block(batches) => Some(batches),
            _ => None,
        }
    }
}

/// The contents of a list of nodes.
pub open spec fn node_models(nodes: Seq<MastNode>) -> Seq<NodeModel> {
    Seq::new(nodes.len(), |i: int| nodes[i]@)
}

impl KindModel {
    /// The nodes that this one refers to, in execution order.
    pub open spec fn children(self) -> Seq<MastNodeId> {
        match self {
            KindModel::Join(a, b) => seq![a, b],
            KindModel::Split(a, b) => seq![a, b],
            KindModel::Loop(a) => seq![a],
            KindModel::Call(a) => seq![a],
            KindModel::SysCall(a) => seq![a],
            _ => Seq::empty(),
        }
    }

    /// The same node with its children renamed.
    pub open spec fn renamed(self, rename: spec_fn(MastNodeId) -> MastNodeId) -> KindModel {
        match self {
            KindModel::Join(a, b) => KindModel::Join(rename(a), rename(b)),
            KindModel::Split(a, b) => KindModel::Split(rename(a), rename(b)),
            KindModel::Loop(a) => KindModel::Loop(rename(a)),
            KindModel::Call(a) => KindModel::Call(rename(a)),
            KindModel::SysCall(a) => KindModel::SysCall(rename(a)),
            _ => self,
        }
    }
}

// DIGESTS
// ================================================================================================

/// The groups of a sequence of batches, one batch behind the other.
pub open spec fn all_groups(batches: Seq<BatchModel>) -> Seq<Felt>
    decreases batches.len(),
{
    if batches.len() == 0 {
        Seq::empty()
    } else {
        all_groups(batches.drop_last()) + batches.last().groups
    }
}

/// The digest of a basic block: the hash of all its groups.
pub open spec fn block_digest(batches: Seq<BatchModel>) -> Word {
    hash_elements_spec(all_groups(batches))
}

/// The digest that a node has, given the digests of the nodes it refers to. The digest of an
/// external node is not computed; it is `external`.
pub open spec fn kind_digest(
    kind: KindModel,
    digest_of: spec_fn(MastNodeId) -> Word,
    external: Word,
) -> Word {
    match kind {
        KindModel::Block(batches) => block_digest(batches),
        KindModel::Join(a, b) => merge_in_domain_spec(digest_of(a), digest_of(b), JOIN_DOMAIN),
        KindModel::Split(a, b) => merge_in_domain_spec(digest_of(a), digest_of(b), SPLIT_DOMAIN),
        KindModel::Loop(a) => merge_in_domain_spec(digest_of(a), Word::zero_spec(), LOOP_DOMAIN),
        KindModel::Call(a) => merge_in_domain_spec(digest_of(a), Word::zero_spec(), CALL_DOMAIN),
        KindModel::SysCall(a) => merge_in_domain_spec(
            digest_of(a),
            Word::zero_spec(),
            SYSCALL_DOMAIN,
        ),
        KindModel::Dyn => merge_in_domain_spec(Word::zero_spec(), Word::zero_spec(), DYN_DOMAIN),
        KindModel::Dyncall => merge_in_domain_spec(
            Word::zero_spec(),
            Word::zero_spec(),
            DYNCALL_DOMAIN,
        ),
        KindModel::External => external,
    }
}

/// The digest that node `kind` has in a list of nodes.
pub open spec fn digest_in(nodes: Seq<NodeModel>, kind: KindModel, external: Word) -> Word {
    kind_digest(kind, |id: MastNodeId| nodes[id.0 as int].digest, external)
}

/// All children of `kind` lie below `bound`.
pub open spec fn children_below(kind: KindModel, bound: int) -> bool {
    forall|i: int| 0 <= i < kind.children().len() ==> (#[trigger] kind.children()[i]).0 < bound
}

/// The hash of the groups of a block.
pub fn digest_of_batches(batches: &Vec<OpBatch>) -> (digest: Word)
    ensures
        digest == block_digest(models(batches@)),
        digest.wf(),
{
    let ghost bs = models(batches@);
    let mut groups: Vec<Felt> = Vec::new();
    let mut i: usize = 0;
    assert(all_groups(bs.take(0)) =~= Seq::<Felt>::empty());
    while i < batches.len()
        invariant
            i <= batches.len(),
            bs == models(batches@),
            groups@ == all_groups(bs.take(i as int)),
        decreases batches.len() - i,
    {
        let ghost before = groups@;
        let mut g: usize = 0;
        while g < 8
            invariant
                g <= 8,
                i < batches.len(),
                groups@ =~= before + batches@[i as int].groups@.take(g as int),
            decreases 8 - g,
        {
            groups.push(batches[i].groups[g]);
            g += 1;
        }
        proof {
            assert(batches@[i as int].groups@.take(8) =~= batches@[i as int].groups@);
            assert(bs.take(i + 1).drop_last() =~= bs.take(i as int));
            assert(bs.take(i + 1).last() == batches@[i as int]@);
        }
        i += 1;
    }
    assert(bs.take(i as int) =~= bs);
    hash_elements(groups.as_slice())
}

/// Computes the digest that a node has in a list of nodes.
pub fn compute_digest(nodes: &Vec<MastNode>, kind: &NodeKind, external: Word) -> (digest: Word)
    requires
        children_below(kind@, nodes@.len() as int),
        external.wf(),
    ensures
        digest == digest_in(node_models(nodes@), kind@, external),
        digest.wf(),
{
    let zero = Word::default();
    proof {
        let c = kind@.children();
        assert(c.len() > 0 ==> c[0].0 < nodes@.len());
        assert(c.len() > 1 ==> c[1].0 < nodes@.len());
    }
    match kind {
        NodeKind::Block(batches) => digest_of_batches(batches),
        NodeKind::Join(a, b) => merge_in_domain(
            &nodes[a.0 as usize].digest,
            &nodes[b.0 as usize].digest,
            JOIN_DOMAIN,
        ),
        NodeKind::Split(a, b) => merge_in_domain(
            &nodes[a.0 as usize].digest,
            &nodes[b.0 as usize].digest,
            SPLIT_DOMAIN,
        ),
        NodeKind::Loop(a) => merge_in_domain(&nodes[a.0 as usize].digest, &zero, LOOP_DOMAIN),
        NodeKind::Call(a) => merge_in_domain(&nodes[a.0 as usize].digest, &zero, CALL_DOMAIN),
        NodeKind::SysCall(a) => merge_in_domain(&nodes[a.0 as usize].digest, &zero, SYSCALL_DOMAIN),
        NodeKind::Dyn => merge_in_domain(&zero, &zero, DYN_DOMAIN),
        NodeKind::Dyncall => merge_in_domain(&zero, &zero, DYNCALL_DOMAIN),
        NodeKind::External => external,
    }
}

// ENTRIES
// ================================================================================================

/// The fixed-width part of a node on the wire.
#[derive(Clone, Copy, PartialEq, Eq, Structural, Debug)]
pub enum MastNodeEntry {
    Join { left: u32, right: u32 },
    Split { on_true: u32, on_false: u32 },
    Loop { body: u32 },
    Block { ops_offset: u32 },
    Call { callee: u32 },
    SysCall { callee: u32 },
    Dyn,
    Dyncall,
    External,
}

/// Number of bytes of an entry.
pub const ENTRY_SIZE: usize = 8;

/// An entry and the digest of its node.
#[derive(Clone, Copy, PartialEq, Eq, Structural, Debug)]
pub struct MastNodeInfo {
    pub entry: MastNodeEntry,
    pub digest: Word,
}

/// The entry of a node, whose basic block stands at `ops_offset` in the block data.
pub open spec fn entry_of(kind: KindModel, ops_offset: u32) -> MastNodeEntry {
    match kind {
        KindModel::Block(_) => MastNodeEntry::Block { ops_offset },
        KindModel::Join(a, b) => MastNodeEntry::Join { left: a.0, right: b.0 },
        KindModel::Split(a, b) => MastNodeEntry::Split { on_true: a.0, on_false: b.0 },
        KindModel::Loop(a) => MastNodeEntry::Loop { body: a.0 },
        KindModel::Call(a) => MastNodeEntry::Call { callee: a.0 },
        KindModel::SysCall(a) => MastNodeEntry::SysCall { callee: a.0 },
        KindModel::Dyn => MastNodeEntry::Dyn,
        KindModel::Dyncall => MastNodeEntry::Dyncall,
        KindModel::External => MastNodeEntry::External,
    }
}

impl MastNodeEntry {
    pub fn new(node: &MastNode, ops_offset: u32) -> (entry: MastNodeEntry)
        ensures
            entry == entry_of(node@.kind, ops_offset),
    {
        match &node.kind {
            NodeKind::Block(_) => MastNodeEntry::Block { ops_offset },
            NodeKind::Join(a, b) => MastNodeEntry::Join { left: a.0, right: b.0 },
            NodeKind::Split(a, b) => MastNodeEntry::Split { on_true: a.0, on_false: b.0 },
            NodeKind::Loop(a) => MastNodeEntry::Loop { body: a.0 },
            NodeKind::Call(a) => MastNodeEntry::Call { callee: a.0 },
            NodeKind::SysCall(a) => MastNodeEntry::SysCall { callee: a.0 },
            NodeKind::Dyn => MastNodeEntry::Dyn,
            NodeKind::Dyncall => MastNodeEntry::Dyncall,
            NodeKind::External => MastNodeEntry::External,
        }
    }

    /// The ids in an entry lie below the bound that a packed pair leaves room for.
    pub open spec fn wf(self) -> bool {
        match self {
            MastNodeEntry::Join { left, right } => left < ID_BOUND && right < ID_BOUND,
            MastNodeEntry::Split { on_true, on_false } => on_true < ID_BOUND && on_false < ID_BOUND,
            _ => true,
        }
    }

    /// The entry as an integer: what it is in the top four bits, the ids or the offset below.
    pub open spec fn packed(self) -> nat {
        match self {
            MastNodeEntry::Join { left, right } => left as nat * 0x4000_0000 + right as nat,
            MastNodeEntry::Split { on_true, on_false } => 0x1000_0000_0000_0000 + on_true as nat
                * 0x4000_0000 + on_false as nat,
            MastNodeEntry::Loop { body } => 0x2000_0000_0000_0000 + body as nat,
            MastNodeEntry::Block { ops_offset } => 0x3000_0000_0000_0000 + ops_offset as nat,
            MastNodeEntry::Call { callee } => 0x4000_0000_0000_0000 + callee as nat,
            MastNodeEntry::SysCall { callee } => 0x5000_0000_0000_0000 + callee as nat,
            MastNodeEntry::Dyn => 0x6000_0000_0000_0000,
            MastNodeEntry::Dyncall => 0x7000_0000_0000_0000,
            MastNodeEntry::External => 0x8000_0000_0000_0000,
        }
    }

    pub fn to_packed(&self) -> (value: u64)
        requires
            self.wf(),
        ensures
            value == self.packed(),
    {
        match *self {
            MastNodeEntry::Join { left, right } => left as u64 * 0x4000_0000 + right as u64,
            MastNodeEntry::Split { on_true, on_false } => 0x1000_0000_0000_0000 + on_true as u64
                * 0x4000_0000 + on_false as u64,
            MastNodeEntry::Loop { body } => 0x2000_0000_0000_0000 + body as u64,
            MastNodeEntry::Block { ops_offset } => 0x3000_0000_0000_0000 + ops_offset as u64,
            MastNodeEntry::Call { callee } => 0x4000_0000_0000_0000 + callee as u64,
            MastNodeEntry::SysCall { callee } => 0x5000_0000_0000_0000 + callee as u64,
            MastNodeEntry::Dyn => 0x6000_0000_0000_0000,
            MastNodeEntry::Dyncall => 0x7000_0000_0000_0000,
            MastNodeEntry::External => 0x8000_0000_0000_0000,
        }
    }
}

/// The entry that an integer stands for.
pub open spec fn unpacked(value: u64) -> Result<MastNodeEntry, InvalidValue> {
    let tag = value / 0x1000_0000_0000_0000;
    let payload = (value % 0x1000_0000_0000_0000) as u64;
    let left = (payload / 0x4000_0000) as u32;
    let right = (payload % 0x4000_0000) as u32;
    if tag == 0 {
        Ok(MastNodeEntry::Join { left, right })
    } else if tag == 1 {
        Ok(MastNodeEntry::Split { on_true: left, on_false: right })
    } else if tag >= 9 {
        Err(InvalidValue::InvalidNodeType { discriminant: tag as u8 })
    } else if payload > u32::MAX || (tag >= 6 && payload != 0) {
        Err(InvalidValue::InvalidNodePayload { payload })
    } else if tag == 2 {
        Ok(MastNodeEntry::Loop { body: payload as u32 })
    } else if tag == 3 {
        Ok(MastNodeEntry::Block { ops_offset: payload as u32 })
    } else if tag == 4 {
        Ok(MastNodeEntry::Call { callee: payload as u32 })
    } else if tag == 5 {
        Ok(MastNodeEntry::SysCall { callee: payload as u32 })
    } else if tag == 6 {
        Ok(MastNodeEntry::Dyn)
    } else if tag == 7 {
        Ok(MastNodeEntry::Dyncall)
    } else {
        Ok(MastNodeEntry::External)
    }
}

pub fn unpack_entry(value: u64) -> (res: Result<MastNodeEntry, InvalidValue>)
    ensures
        res == unpacked(value),
        res is Ok ==> res->Ok_0.wf(),
{
    let tag: u64 = value / 0x1000_0000_0000_0000;
    let payload: u64 = value % 0x1000_0000_0000_0000;
    let left: u32 = (payload / 0x4000_0000) as u32;
    let right: u32 = (payload % 0x4000_0000) as u32;
    if tag == 0 {
        Ok(MastNodeEntry::Join { left, right })
    } else if tag == 1 {
        Ok(MastNodeEntry::Split { on_true: left, on_false: right })
    } else if tag >= 9 {
        Err(InvalidValue::InvalidNodeType { discriminant: tag as u8 })
    } else if payload > u32::MAX as u64 || (tag >= 6 && payload != 0) {
        Err(InvalidValue::InvalidNodePayload { payload })
    } else if tag == 2 {
        Ok(MastNodeEntry::Loop { body: payload as u32 })
    } else if tag == 3 {
        Ok(MastNodeEntry::Block { ops_offset: payload as u32 })
    } else if tag == 4 {
        Ok(MastNodeEntry::Call { callee: payload as u32 })
    } else if tag == 5 {
        Ok(MastNodeEntry::SysCall { callee: payload as u32 })
    } else if tag == 6 {
        Ok(MastNodeEntry::Dyn)
    } else if tag == 7 {
        Ok(MastNodeEntry::Dyncall)
    } else {
        Ok(MastNodeEntry::External)
    }
}

/// An entry is what its integer stands for.
pub proof fn law_entry_round_trip(entry: MastNodeEntry)
    requires
        entry.wf(),
    ensures
        entry.packed() <= u64::MAX,
        unpacked(entry.packed() as u64) == Ok::<MastNodeEntry, InvalidValue>(entry),
{
}

// COPYING
// ================================================================================================

/// Copies a batch.
pub fn copy_batch(batch: &OpBatch) -> (copy: OpBatch)
    ensures
        copy@ == batch@,
{
    let mut ops: Vec<Operation> = Vec::new();
    let mut i: usize = 0;
    while i < batch.ops.len()
        invariant
            i <= batch.ops.len(),
            ops@ =~= batch.ops@.take(i as int),
        decreases batch.ops.len() - i,
    {
        ops.push(batch.ops[i]);
        i += 1;
    }
    assert(ops@ =~= batch.ops@);
    OpBatch {
        ops,
        indptr: batch.indptr,
        padding: batch.padding,
        groups: batch.groups,
        num_groups: batch.num_groups,
    }
}

/// A copy of a node.
pub fn copy_node(node: &MastNode) -> (copy: MastNode)
    ensures
        copy@ == node@,
{
    let kind = match &node.kind {
        NodeKind::Block(batches) => NodeKind::Block(copy_batches(batches)),
        NodeKind::Join(a, b) => NodeKind::Join(*a, *b),
        NodeKind::Split(a, b) => NodeKind::Split(*a, *b),
        NodeKind::Loop(a) => NodeKind::Loop(*a),
        NodeKind::Call(a) => NodeKind::Call(*a),
        NodeKind::SysCall(a) => NodeKind::SysCall(*a),
        NodeKind::Dyn => NodeKind::Dyn,
        NodeKind::Dyncall => NodeKind::Dyncall,
        NodeKind::External => NodeKind::External,
    };
    MastNode { kind, digest: node.digest }
}

/// Copies a list of batches.
pub fn copy_batches(batches: &Vec<OpBatch>) -> (copy: Vec<OpBatch>)
    ensures
        models(copy@) == models(batches@),
        copy@.len() == batches@.len(),
{
    let mut copy: Vec<OpBatch> = Vec::new();
    let mut i: usize = 0;
    while i < batches.len()
        invariant
            i <= batches.len(),
            models(copy@) =~= models(batches@).take(i as int),
        decreases batches.len() - i,
    {
        let ghost before = models(copy@);
        copy.push(copy_batch(&batches[i]));
        assert(models(copy@) =~= before.push(batches@[i as int]@));
        i += 1;
    }
    assert(models(copy@) =~= models(batches@));
    copy
}

impl MastNodeEntry {
    /// The ids of the children, in their order.
    pub open spec fn ids(self) -> Seq<u32> {
        match self {
            MastNodeEntry::Join { left, right } => seq![left, right],
            MastNodeEntry::Split { on_true, on_false } => seq![on_true, on_false],
            MastNodeEntry::Loop { body } => seq![body],
            MastNodeEntry::Call { callee } => seq![callee],
            MastNodeEntry::SysCall { callee } => seq![callee],
            _ => Seq::empty(),
        }
    }
}

/// The entry of a node names its children in their order.
pub proof fn law_entries_name_the_children(kind: KindModel, ops_offset: u32)
    ensures
        entry_of(kind, ops_offset).ids().len() == kind.children().len(),
        forall|i: int|
            0 <= i < kind.children().len() ==> #[trigger] entry_of(kind, ops_offset).ids()[i]
                == kind.children()[i].0,
{
}

/// The integer of an entry holds its ids, the last lowest, thirty bits each if there are two; the
/// top four bits tell its kind from every other.
pub proof fn law_entries_hold_their_ids(a: MastNodeEntry, b: MastNodeEntry)
    requires
        a.wf(),
        b.wf(),
    ensures
        a.ids().len() == 1 ==> a.packed() % 0x1_0000_0000 == a.ids()[0],
        a.ids().len() == 2 ==> a.packed() % 0x4000_0000 == a.ids()[1] && a.packed() / 0x4000_0000
            % 0x4000_0000 == a.ids()[0],
        a matches MastNodeEntry::Block { ops_offset } ==> a.packed() % 0x1_0000_0000 == ops_offset,
        a.packed() / 0x1000_0000_0000_0000 == b.packed() / 0x1000_0000_0000_0000 ==> (a is Join
            == b is Join) && (a is Split == b is Split) && (a is Loop == b is Loop) && (a is Block
            == b is Block) && (a is Call == b is Call) && (a is SysCall == b is SysCall) && (a is Dyn
            == b is Dyn) && (a is Dyncall == b is Dyncall) && (a is External == b is External),
        a.packed() == b.packed() ==> a == b,
{
}

/// The domains in which nodes are hashed differ from one another, and from the code of every
/// operation, among which they lie: those of calls by name have the wide codes, a multiple of four
/// each, and the others the codes right below these.
pub proof fn law_domains_differ(op: crate::operation::Operation)
    ensures
        seq![
            JOIN_DOMAIN,
            SPLIT_DOMAIN,
            LOOP_DOMAIN,
            CALL_DOMAIN,
            SYSCALL_DOMAIN,
            DYN_DOMAIN,
            DYNCALL_DOMAIN,
        ].no_duplicates(),
        op.code() != JOIN_DOMAIN && op.code() != SPLIT_DOMAIN && op.code() != LOOP_DOMAIN
            && op.code() != CALL_DOMAIN && op.code() != SYSCALL_DOMAIN && op.code() != DYN_DOMAIN
            && op.code() != DYNCALL_DOMAIN,
        96 <= CALL_DOMAIN < 128 && CALL_DOMAIN % 4 == 0,
        96 <= SYSCALL_DOMAIN < 128 && SYSCALL_DOMAIN % 4 == 0,
        80 <= SPLIT_DOMAIN < LOOP_DOMAIN && LOOP_DOMAIN < JOIN_DOMAIN && JOIN_DOMAIN < DYN_DOMAIN
            && DYN_DOMAIN < DYNCALL_DOMAIN && DYNCALL_DOMAIN < 96,
{
    reveal(crate::operation::Operation::code);
}

/// Every id that a node of a forest can have fits in the entry of a node that refers to it.
pub proof fn law_entries_hold_the_ids_of_forests(a: u32, b: u32)
    requires
        a < crate::forest::MAX_NODES,
        b < crate::forest::MAX_NODES,
    ensures
        (MastNodeEntry::Join { left: a, right: b }).wf(),
        (MastNodeEntry::Split { on_true: a, on_false: b }).wf(),
{
}

proof fn lemma_all_groups(batches: Seq<BatchModel>, i: int, g: int)
    requires
        0 <= i < batches.len(),
        0 <= g < 8,
        forall|k: int| 0 <= k < batches.len() ==> (#[trigger] batches[k]).groups.len() == 8,
    ensures
        all_groups(batches).len() == 8 * batches.len(),
        all_groups(batches)[8 * i + g] == batches[i].groups[g],
    decreases batches.len(),
{
    let front = batches.drop_last();
    assert forall|k: int| 0 <= k < front.len() implies (#[trigger] front[k]).groups.len() == 8 by {
        assert(front[k] == batches[k]);
    }
    if front.len() > 0 {
        lemma_all_groups(front, if i < front.len() { i } else { 0 }, g);
    }
    assert(all_groups(front).len() == 8 * front.len());
}

/// The digest of a block is that of all groups of its batches, in their order: eight of each batch,
/// and those of a batch behind those of the batches before it.
pub proof fn law_block_digests_cover_all_groups(batches: Seq<BatchModel>)
    requires
        forall|k: int| 0 <= k < batches.len() ==> (#[trigger] batches[k]).groups.len() == 8,
        batches.len() > 0,
    ensures
        exists|groups: Seq<Felt>| #[trigger]
            hash_elements_spec(groups) == block_digest(batches) && groups.len() == 8 * batches.len()
                && forall|i: int, g: int|
                0 <= i < batches.len() && 0 <= g < 8 ==> groups[8 * i + g]
                    == #[trigger] batches[i].groups[g],
{
    let groups = all_groups(batches);
    lemma_all_groups(batches, 0, 0);
    assert forall|i: int, g: int| 0 <= i < batches.len() && 0 <= g < 8 implies groups[8 * i + g]
        == #[trigger] batches[i].groups[g] by {
        lemma_all_groups(batches, i, g);
    }
    assert(hash_elements_spec(groups) == block_digest(batches));
}

} // verus!
