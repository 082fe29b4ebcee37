//! MAST forests in memory.

use vstd::prelude::*;

use crate::batch::{batch_operations, batched, models};
use crate::block::writable;
use crate::error::{DeserializationError, InvalidValue};
use crate::felt::{Felt, Word};
use crate::hasher::{
    hash_elements, hash_elements_spec, merge_in_domain, merge_in_domain_spec,
};
use crate::node::{
    block_digest, children_below, compute_digest, digest_in, entry_of, node_models, KindModel,
    MastNode, MastNodeEntry, MastNodeId, NodeKind, NodeModel,
};
use crate::operation::Operation;
use crate::text::{decimal, say, say1, say2};

verus! {

/// The domain in which entries of advice maps are hashed.
pub const ADVICE_DOMAIN: u64 = 0;

/// A forest holds at most this many nodes.
pub const MAX_NODES: usize = 0x3fff_ffff;

/// Why a batch of an untrusted basic block is refused.
#[derive(Clone, Copy, PartialEq, Eq, Structural, Debug)]
pub enum BatchFault {
    /// A batch before the last has fewer than eight groups.
    NotFull { batch: usize },
    /// The number of groups of the last batch is not a power of two.
    NotPowerOfTwo { batch: usize },
    /// A group is marked as padded and does not end in a `Noop`.
    PaddingNotNoop { batch: usize, group: usize },
}

/// Why a forest is refused.
#[derive(Clone, Copy, PartialEq, Eq, Structural, Debug)]
pub enum MastForestError {
    TooManyNodes,
    EmptyBasicBlock,
    NodeIdOverflow(MastNodeId, usize),
    DuplicateExternal(Word),
    ChildNotBefore(MastNodeId, MastNodeId),
    HashMismatch { node_id: MastNodeId, expected: Word, computed: Word },
    InvalidBatchPadding(MastNodeId, BatchFault),
    Deserialization(DeserializationError),
}

impl MastForestError {
    /// What to tell the user.
    pub open spec fn text(self) -> Seq<char> {
        match self {
            MastForestError::TooManyNodes => "too many nodes in the forest"@,
            MastForestError::EmptyBasicBlock => "basic block without operations"@,
            MastForestError::NodeIdOverflow(id, count) => "node id "@ + decimal(id.0 as nat)
                + " out of bounds for "@ + decimal(count as nat) + " nodes"@,
            MastForestError::DuplicateExternal(_) => "two external nodes with the same digest"@,
            MastForestError::ChildNotBefore(node, child) => "node "@ + decimal(node.0 as nat)
                + " references child "@ + decimal(child.0 as nat)
                + " that does not come before it"@,
            MastForestError::HashMismatch { node_id, .. } => "digest of node "@ + decimal(
                node_id.0 as nat,
            ) + " does not match its structure"@,
            MastForestError::InvalidBatchPadding(id, _) => "invalid batch padding in node "@
                + decimal(id.0 as nat) + ""@,
            MastForestError::Deserialization(e) => e.text(),
        }
    }

    pub fn message(&self) -> (message: String)
        ensures
            message@ == self.text(),
    {
        match self {
            MastForestError::TooManyNodes => say("too many nodes in the forest"),
            MastForestError::EmptyBasicBlock => say("basic block without operations"),
            MastForestError::NodeIdOverflow(id, count) => say2(
                "node id ",
                id.0 as u64,
                " out of bounds for ",
                *count as u64,
                " nodes",
            ),
            MastForestError::DuplicateExternal(_) => say("two external nodes with the same digest"),
            MastForestError::ChildNotBefore(node, child) => say2(
                "node ",
                node.0 as u64,
                " references child ",
                child.0 as u64,
                " that does not come before it",
            ),
            MastForestError::HashMismatch { node_id, .. } => say1(
                "digest of node ",
                node_id.0 as u64,
                " does not match its structure",
            ),
            MastForestError::InvalidBatchPadding(id, _) => say1(
                "invalid batch padding in node ",
                id.0 as u64,
                "",
            ),
            MastForestError::Deserialization(e) => e.message(),
        }
    }
}

/// One entry of an advice map.
#[derive(Clone, PartialEq, Eq, Debug)]
pub struct AdviceEntry {
    pub key: Word,
    pub values: Vec<Felt>,
}

/// Values by key, in the order of the keys.
#[derive(Clone, PartialEq, Eq, Debug)]
pub struct AdviceMap {
    pub entries: Vec<AdviceEntry>,
}

/// The contents of an advice map: its entries in the order of the keys.
pub type AdviceModel = Seq<(Word, Seq<Felt>)>;

pub open spec fn entry_models(entries: Seq<AdviceEntry>) -> AdviceModel {
    Seq::new(entries.len(), |i: int| (entries[i].key, entries[i].values@))
}

/// The keys increase strictly.
pub open spec fn sorted(entries: AdviceModel) -> bool {
    forall|i: int, j: int| 0 <= i < j < entries.len() ==> entries[i].0.lt_spec(entries[j].0)
}

/// All elements are canonical.
pub open spec fn canonical(entries: AdviceModel) -> bool {
    forall|i: int|
        0 <= i < entries.len() ==> (#[trigger] entries[i]).0.wf() && forall|j: int|
            0 <= j < entries[i].1.len() ==> (#[trigger] entries[i].1[j]).wf()
}

/// How many of the first `k` entries have a key before `key`.
pub open spec fn rank(entries: AdviceModel, key: Word, k: nat) -> nat
    decreases k,
{
    if k == 0 {
        0
    } else {
        rank(entries, key, (k - 1) as nat) + if entries[k - 1].0.lt_spec(key) {
            1nat
        } else {
            0nat
        }
    }
}

/// The map with `values` under `key`: in place of the values it had there, or at the place of a
/// new key.
pub open spec fn inserted(entries: AdviceModel, key: Word, values: Seq<Felt>) -> AdviceModel {
    let at = rank(entries, key, entries.len()) as int;
    if at < entries.len() && entries[at].0 == key {
        entries.update(at, (key, values))
    } else {
        entries.insert(at, (key, values))
    }
}

impl AdviceMap {
    pub open spec fn view(&self) -> AdviceModel {
        entry_models(self.entries@)
    }

    pub open spec fn wf(&self) -> bool {
        sorted(self@) && canonical(self@)
    }

    /// A map without entries.
    pub fn new() -> (map: AdviceMap)
        ensures
            map@ == Seq::<(Word, Seq<Felt>)>::empty(),
            map.wf(),
    {
        let map = AdviceMap { entries: Vec::new() };
        assert(map@ =~= Seq::<(Word, Seq<Felt>)>::empty());
        map
    }

    pub fn len(&self) -> (n: usize)
        ensures
            n == self@.len(),
    {
        self.entries.len()
    }

    /// The values under `key`.
    pub fn get(&self, key: &Word) -> (values: Option<&Vec<Felt>>)
        requires
            sorted(self@),
        ensures
            match values {
                Some(v) => exists|i: int| 0 <= i < self@.len() && #[trigger] self@[i] == (*key, v@),
                None => forall|i: int| 0 <= i < self@.len() ==> (#[trigger] self@[i]).0 != *key,
            },
    {
        let mut i: usize = 0;
        while i < self.entries.len()
            invariant
                i <= self.entries@.len(),
                forall|k: int| 0 <= k < i ==> (#[trigger] self@[k]).0 != *key,
            decreases self.entries@.len() - i,
        {
            assert(self@[i as int] == (self.entries@[i as int].key, self.entries@[
            i as int].values@));
            if self.entries[i].key == *key {
                return Some(&self.entries[i].values);
            }
            i += 1;
        }
        None
    }

    /// A copy of the map.
    pub fn copy(&self) -> (copy: AdviceMap)
        ensures
            copy@ == self@,
    {
        let mut entries: Vec<AdviceEntry> = Vec::new();
        let mut i: usize = 0;
        while i < self.entries.len()
            invariant
                i <= self.entries@.len(),
                entries@.len() == i,
                forall|k: int|
                    0 <= k < i ==> (#[trigger] entries@[k]).key == self.entries@[k].key
                        && entries@[k].values@ == self.entries@[k].values@,
            decreases self.entries@.len() - i,
        {
            let entry = &self.entries[i];
            entries.push(
                AdviceEntry {
                    key: entry.key,
                    values: crate::debug_info::copy_vec(&entry.values),
                },
            );
            i += 1;
        }
        let copy = AdviceMap { entries };
        assert(copy@ =~= self@);
        copy
    }

    /// Puts `values` under `key`.
    pub fn insert(&mut self, key: Word, values: Vec<Felt>)
        requires
            sorted(old(self)@),
        ensures
            final(self)@ == inserted(old(self)@, key, values@),
            sorted(final(self)@),
            old(self).wf() && key.wf() && (forall|j: int|
                0 <= j < values@.len() ==> (#[trigger] values@[j]).wf()) ==> final(self).wf(),
    {
        let ghost before = self@;
        let mut at: usize = 0;
        while at < self.entries.len() && self.entries[at].key.lt(&key)
            invariant
                at <= self.entries.len(),
                self@ == before,
                rank(before, key, at as nat) == at,
                forall|i: int| 0 <= i < at ==> before[i].0.lt_spec(key),
            ensures
                at <= self.entries.len(),
                self@ == before,
                rank(before, key, at as nat) == at,
                forall|i: int| 0 <= i < at ==> before[i].0.lt_spec(key),
                at < self.entries.len() ==> !before[at as int].0.lt_spec(key),
            decreases self.entries.len() - at,
        {
            at += 1;
        }
        proof {
            lemma_rank_stops(before, key, at as nat, before.len());
        }
        let entry = AdviceEntry { key, values };
        if at < self.entries.len() && self.entries[at].key == key {
            self.entries[at] = entry;
            assert(self@ =~= before.update(at as int, (key, values@)));
        } else {
            self.entries.insert(at, entry);
            assert(self@ =~= before.insert(at as int, (key, values@)));
        }
        proof {
            lemma_insert_sorted(before, key, values@, at as nat);
        }
    }
}

proof fn lemma_rank_stops(entries: AdviceModel, key: Word, at: nat, k: nat)
    requires
        sorted(entries),
        at <= k <= entries.len(),
        rank(entries, key, at) == at,
        at < entries.len() ==> !entries[at as int].0.lt_spec(key),
    ensures
        rank(entries, key, k) == at,
    decreases k,
{
    if at < k {
        lemma_rank_stops(entries, key, at, (k - 1) as nat);
        if at < k - 1 {
            assert(entries[at as int].0.lt_spec(entries[k - 1].0));
            crate::felt::law_word_order(entries[at as int].0, entries[k - 1].0, key);
        }
    }
}

/// A map stays in order when values are inserted.
pub proof fn lemma_inserted_sorted(entries: AdviceModel, key: Word, values: Seq<Felt>)
    requires
        sorted(entries),
    ensures
        sorted(inserted(entries, key, values)),
        rank(entries, key, entries.len()) <= entries.len(),
{
    lemma_rank_split(entries, key, entries.len());
    lemma_insert_sorted(entries, key, values, rank(entries, key, entries.len()));
}

proof fn lemma_rank_split(entries: AdviceModel, key: Word, k: nat)
    requires
        sorted(entries),
        k <= entries.len(),
    ensures
        rank(entries, key, k) <= k,
        forall|i: int|
            0 <= i < rank(entries, key, k) ==> (#[trigger] entries[i]).0.lt_spec(key),
        rank(entries, key, k) < k ==> !entries[rank(entries, key, k) as int].0.lt_spec(key),
    decreases k,
{
    if k > 0 {
        lemma_rank_split(entries, key, (k - 1) as nat);
        let at = rank(entries, key, (k - 1) as nat) as int;
        if at < k - 1 && entries[k - 1].0.lt_spec(key) {
            assert(entries[at].0.lt_spec(entries[k - 1].0));
            crate::felt::law_word_order(entries[at].0, entries[k - 1].0, key);
        }
    }
}

proof fn lemma_insert_sorted(entries: AdviceModel, key: Word, values: Seq<Felt>, at: nat)
    requires
        sorted(entries),
        at <= entries.len(),
        rank(entries, key, entries.len()) == at,
        forall|i: int| 0 <= i < at ==> entries[i].0.lt_spec(key),
        at < entries.len() ==> !entries[at as int].0.lt_spec(key),
    ensures
        sorted(inserted(entries, key, values)),
        canonical(entries) && key.wf() && (forall|j: int|
            0 <= j < values.len() ==> (#[trigger] values[j]).wf()) ==> canonical(
            inserted(entries, key, values),
        ),
{
    let after = inserted(entries, key, values);
    let at = at as int;
    let replaced = at < entries.len() && entries[at].0 == key;
    assert forall|i: int| at <= i < entries.len() && !(replaced && i == at) implies key.lt_spec(
        (#[trigger] entries[i]).0,
    ) by {
        crate::felt::law_word_order(key, entries[at].0, entries[i].0);
    }
    assert forall|i: int, j: int| 0 <= i < j < after.len() implies after[i].0.lt_spec(
        after[j].0,
    ) by {
        if replaced {
            assert(entries[i].0.lt_spec(entries[j].0));
        } else {
            let a = if i < at { i } else { i - 1 };
            let b = if j < at { j } else { j - 1 };
            if i != at && j != at {
                assert(entries[a].0.lt_spec(entries[b].0));
            } else if i == at {
                assert(key.lt_spec(entries[b].0));
            }
        }
    }
    if canonical(entries) && key.wf() && (forall|j: int|
        0 <= j < values.len() ==> (#[trigger] values[j]).wf()) {
        assert forall|i: int| 0 <= i < after.len() implies (#[trigger] after[i]).0.wf() && forall|
            j: int,
        | 0 <= j < after[i].1.len() ==> (#[trigger] after[i].1[j]).wf() by {
            if i == at {
            } else {
                let a = if replaced || i < at { i } else { i - 1 };
                assert(after[i] == entries[a]);
            }
        }
    }
}

// FORESTS
// ================================================================================================

/// A collection of nodes that share their subtrees.
#[derive(Clone, PartialEq, Eq, Debug)]
pub struct MastForest {
    pub nodes: Vec<MastNode>,
    pub roots: Vec<MastNodeId>,
    pub advice_map: AdviceMap,
}

/// The contents of a forest.
pub ghost struct ForestModel {
    pub nodes: Seq<NodeModel>,
    pub roots: Seq<MastNodeId>,
    pub advice_map: AdviceModel,
}

/// The entries of nodes, with block offsets left out.
pub open spec fn bare_entries(nodes: Seq<NodeModel>) -> Seq<MastNodeEntry> {
    Seq::new(nodes.len(), |i: int| entry_of(nodes[i].kind, 0))
}

pub open spec fn digests_of(nodes: Seq<NodeModel>) -> Seq<Word> {
    Seq::new(nodes.len(), |i: int| nodes[i].digest)
}

/// The first child of an entry that does not come before node `i`.
pub open spec fn late_child(entry: MastNodeEntry, i: int) -> Option<u32> {
    match entry {
        MastNodeEntry::Join { left, right } => if left >= i {
            Some(left)
        } else if right >= i {
            Some(right)
        } else {
            None
        },
        MastNodeEntry::Split { on_true, on_false } => if on_true >= i {
            Some(on_true)
        } else if on_false >= i {
            Some(on_false)
        } else {
            None
        },
        MastNodeEntry::Loop { body } => if body >= i {
            Some(body)
        } else {
            None
        },
        MastNodeEntry::Call { callee } => if callee >= i {
            Some(callee)
        } else {
            None
        },
        MastNodeEntry::SysCall { callee } => if callee >= i {
            Some(callee)
        } else {
            None
        },
        _ => None,
    }
}

/// What is wrong with the place of node `i`, given that the nodes before it are in order.
pub open spec fn misplaced(entries: Seq<MastNodeEntry>, digests: Seq<Word>, i: int) -> Option<
    InvalidValue,
> {
    match entries[i] {
        MastNodeEntry::External => if i == 0 {
            None
        } else if entries[i - 1] is Block {
            Some(InvalidValue::ExternalAfterBlock { index: i as usize })
        } else if !(entries[i - 1] is External) {
            Some(InvalidValue::ExternalAfterInternal { index: i as usize })
        } else if !digests[i - 1].lt_spec(digests[i]) {
            Some(InvalidValue::ExternalsNotIncreasing { index: i as usize })
        } else {
            None
        },
        MastNodeEntry::Block { .. } => if i > 0 && !(entries[i - 1] is External)
            && !(entries[i - 1] is Block) {
            Some(InvalidValue::BlockAfterInternal { index: i as usize })
        } else {
            None
        },
        _ => match late_child(entries[i], i) {
            Some(child) => Some(InvalidValue::ChildNotBefore { node: i as usize, child }),
            None => None,
        },
    }
}

/// The first fault in the order of the first `k` nodes. In dense order the external nodes come
/// first, by increasing digest, then the basic blocks, then the other nodes, each behind its
/// children.
pub open spec fn order_fault(entries: Seq<MastNodeEntry>, digests: Seq<Word>, k: nat) -> Option<
    InvalidValue,
>
    decreases k,
{
    if k == 0 {
        None
    } else {
        match order_fault(entries, digests, (k - 1) as nat) {
            Some(e) => Some(e),
            None => misplaced(entries, digests, k - 1),
        }
    }
}

/// The nodes are in dense order.
pub open spec fn dense(nodes: Seq<NodeModel>) -> bool {
    order_fault(bare_entries(nodes), digests_of(nodes), nodes.len()) is None
}

impl NodeModel {
    pub open spec fn wf(self) -> bool {
        &&& self.digest.wf()
        &&& match self.kind {
            KindModel::Block(batches) => writable(batches),
            _ => true,
        }
    }
}

impl ForestModel {
    /// Nodes are well formed, children come before their parents, roots are nodes, and the advice
    /// map is ordered.
    pub open spec fn wf(self) -> bool {
        &&& self.nodes.len() <= MAX_NODES
        &&& forall|i: int| 0 <= i < self.nodes.len() ==> (#[trigger] self.nodes[i]).wf()
        &&& forall|i: int|
            0 <= i < self.nodes.len() ==> children_below((#[trigger] self.nodes[i]).kind, i)
        &&& forall|i: int|
            0 <= i < self.roots.len() ==> (#[trigger] self.roots[i]).0 < self.nodes.len()
        &&& sorted(self.advice_map)
        &&& canonical(self.advice_map)
    }
}

/// A refusal of the first nodes is a refusal of all.
pub proof fn lemma_order_fault(entries: Seq<MastNodeEntry>, digests: Seq<Word>, k: nat, n: nat)
    requires
        k <= n,
        order_fault(entries, digests, k) is Some,
    ensures
        order_fault(entries, digests, n) == order_fault(entries, digests, k),
    decreases n - k,
{
    if k < n {
        lemma_order_fault(entries, digests, k, (n - 1) as nat);
    }
}

/// In dense order no node is misplaced.
pub proof fn lemma_no_fault(entries: Seq<MastNodeEntry>, digests: Seq<Word>, i: nat, n: nat)
    requires
        i < n,
        order_fault(entries, digests, n) is None,
    ensures
        misplaced(entries, digests, i as int) is None,
    decreases n,
{
    if i + 1 < n {
        lemma_no_fault(entries, digests, i, (n - 1) as nat);
    }
}

/// The place of an entry relative to those before it.
pub fn check_place(
    index: usize,
    previous: Option<MastNodeEntry>,
    entry: MastNodeEntry,
    previous_digest: Word,
    digest: Word,
) -> (fault: Option<InvalidValue>)
    ensures
        forall|entries: Seq<MastNodeEntry>, digests: Seq<Word>|
            (#[trigger] entries.len() > index && #[trigger] digests.len() == entries.len()
                && entries[index as int] == entry && (previous is None <==> index == 0) && (index
                > 0 ==> previous == Some(entries[index - 1])) && (index > 0
                && entries[index as int] is External && entries[index - 1] is External ==> digests[
            index - 1] == previous_digest && digests[index as int] == digest)) ==> fault
                == misplaced(entries, digests, index as int),
{
    let bound: u64 = index as u64;
    match entry {
        MastNodeEntry::External => match previous {
            None => None,
            Some(MastNodeEntry::Block { .. }) => Some(InvalidValue::ExternalAfterBlock { index }),
            Some(MastNodeEntry::External) => if !previous_digest.lt(&digest) {
                Some(InvalidValue::ExternalsNotIncreasing { index })
            } else {
                None
            },
            _ => Some(InvalidValue::ExternalAfterInternal { index }),
        },
        MastNodeEntry::Block { .. } => match previous {
            None => None,
            Some(MastNodeEntry::External) => None,
            Some(MastNodeEntry::Block { .. }) => None,
            _ => Some(InvalidValue::BlockAfterInternal { index }),
        },
        MastNodeEntry::Join { left, right } => if left as u64 >= bound {
            Some(InvalidValue::ChildNotBefore { node: index, child: left })
        } else if right as u64 >= bound {
            Some(InvalidValue::ChildNotBefore { node: index, child: right })
        } else {
            None
        },
        MastNodeEntry::Split { on_true, on_false } => if on_true as u64 >= bound {
            Some(InvalidValue::ChildNotBefore { node: index, child: on_true })
        } else if on_false as u64 >= bound {
            Some(InvalidValue::ChildNotBefore { node: index, child: on_false })
        } else {
            None
        },
        MastNodeEntry::Loop { body } => if body as u64 >= bound {
            Some(InvalidValue::ChildNotBefore { node: index, child: body })
        } else {
            None
        },
        MastNodeEntry::Call { callee } => if callee as u64 >= bound {
            Some(InvalidValue::ChildNotBefore { node: index, child: callee })
        } else {
            None
        },
        MastNodeEntry::SysCall { callee } => if callee as u64 >= bound {
            Some(InvalidValue::ChildNotBefore { node: index, child: callee })
        } else {
            None
        },
        _ => None,
    }
}

impl MastForest {
    pub open spec fn view(&self) -> ForestModel {
        ForestModel {
            nodes: node_models(self.nodes@),
            roots: self.roots@,
            advice_map: self.advice_map@,
        }
    }

    /// A forest without nodes.
    pub fn new() -> (forest: MastForest)
        ensures
            forest@.wf(),
            forest@.nodes.len() == 0,
            forest@.roots.len() == 0,
            forest@.advice_map.len() == 0,
    {
        MastForest { nodes: Vec::new(), roots: Vec::new(), advice_map: AdviceMap::new() }
    }

    pub fn num_nodes(&self) -> (n: usize)
        ensures
            n == self@.nodes.len(),
    {
        self.nodes.len()
    }

    /// The digest of node `id`.
    pub fn node_digest(&self, id: MastNodeId) -> (digest: Word)
        requires
            id.0 < self@.nodes.len(),
        ensures
            digest == self@.nodes[id.0 as int].digest,
    {
        self.nodes[id.0 as usize].digest
    }

    /// The commitment of the forest: to its procedure roots, and to its advice map.
    pub fn commitment(&self) -> (digest: Word)
        requires
            self@.wf(),
        ensures
            digest == commitment_of(self@, self@.advice_map.len()),
            digest.wf(),
    {
        let mut digest = self.interface_commitment();
        let mut i: usize = 0;
        while i < self.advice_map.entries.len()
            invariant
                i <= self.advice_map.entries@.len() == self@.advice_map.len(),
                digest == commitment_of(self@, i as nat),
                digest.wf(),
            decreases self.advice_map.entries@.len() - i,
        {
            let entry = &self.advice_map.entries[i];
            assert(self@.advice_map[i as int] == (entry.key, entry.values@));
            let values = hash_elements(entry.values.as_slice());
            let entry_digest = merge_in_domain(&entry.key, &values, ADVICE_DOMAIN);
            digest = merge_in_domain(&digest, &entry_digest, ADVICE_DOMAIN);
            i += 1;
        }
        digest
    }

    /// The commitment to what the forest offers: the hash of the digests of its procedure roots.
    pub fn interface_commitment(&self) -> (digest: Word)
        requires
            forall|i: int|
                0 <= i < self@.roots.len() ==> (#[trigger] self@.roots[i]).0 < self@.nodes.len(),
        ensures
            digest == hash_elements_spec(root_elements(self@, self@.roots.len())),
            digest.wf(),
    {
        let mut elements: Vec<Felt> = Vec::new();
        let mut i: usize = 0;
        while i < self.roots.len()
            invariant
                i <= self.roots@.len(),
                forall|i: int|
                    0 <= i < self@.roots.len() ==> (#[trigger] self@.roots[i]).0
                        < self@.nodes.len(),
                elements@ == root_elements(self@, i as nat),
            decreases self.roots@.len() - i,
        {
            assert(self@.roots[i as int].0 < self@.nodes.len());
            let digest = self.nodes[self.roots[i].0 as usize].digest;
            let ghost before = elements@;
            elements.push(digest.w0);
            elements.push(digest.w1);
            elements.push(digest.w2);
            elements.push(digest.w3);
            assert(elements@ =~= root_elements(self@, (i + 1) as nat));
            i += 1;
        }
        hash_elements(elements.as_slice())
    }

    /// Marks a node as a procedure root, once.
    pub fn make_root(&mut self, id: MastNodeId)
        requires
            old(self)@.wf(),
            id.0 < old(self)@.nodes.len(),
        ensures
            final(self)@.wf(),
            final(self)@ == (ForestModel {
                roots: if old(self)@.roots.contains(id) {
                    old(self)@.roots
                } else {
                    old(self)@.roots.push(id)
                },
                ..old(self)@
            }),
    {
        let mut i: usize = 0;
        while i < self.roots.len()
            invariant
                i <= self.roots.len(),
                self == old(self),
                old(self)@.wf(),
                forall|j: int| 0 <= j < i ==> self.roots@[j] != id,
            decreases self.roots.len() - i,
        {
            if self.roots[i] == id {
                return;
            }
            i += 1;
        }
        self.roots.push(id);
    }

    /// Adds a node whose children are already in the forest.
    ///
    /// Refuses a node beyond the largest count, and a child that the forest does not hold. The
    /// digest of an external node is `external`; the others are computed.
    pub fn add_node(&mut self, kind: NodeKind, external: Word) -> (res: Result<
        MastNodeId,
        MastForestError,
    >)
        requires
            old(self)@.wf(),
            external.wf(),
            match kind@ {
                KindModel::Block(batches) => writable(batches),
                _ => true,
            },
        ensures
            final(self)@.wf(),
            match added(old(self)@, kind@) {
                Some(e) => res == Err::<MastNodeId, MastForestError>(e) && final(self)@ == old(
                    self,
                )@,
                None => res == Ok::<MastNodeId, MastForestError>(
                    MastNodeId(old(self)@.nodes.len() as u32),
                ) && final(self)@ == (ForestModel {
                    nodes: old(self)@.nodes.push(
                        NodeModel {
                            kind: kind@,
                            digest: digest_in(old(self)@.nodes, kind@, external),
                        },
                    ),
                    ..old(self)@
                }),
            },
    {
        let len: usize = self.nodes.len();
        let overflow: Option<MastNodeId> = match &kind {
            NodeKind::Join(a, b) => if a.0 as usize >= len {
                Some(*a)
            } else if b.0 as usize >= len {
                Some(*b)
            } else {
                None
            },
            NodeKind::Split(a, b) => if a.0 as usize >= len {
                Some(*a)
            } else if b.0 as usize >= len {
                Some(*b)
            } else {
                None
            },
            NodeKind::Loop(a) => if a.0 as usize >= len {
                Some(*a)
            } else {
                None
            },
            NodeKind::Call(a) => if a.0 as usize >= len {
                Some(*a)
            } else {
                None
            },
            NodeKind::SysCall(a) => if a.0 as usize >= len {
                Some(*a)
            } else {
                None
            },
            _ => None,
        };
        if let Some(id) = overflow {
            return Err(MastForestError::NodeIdOverflow(id, len));
        }
        if len >= MAX_NODES {
            return Err(MastForestError::TooManyNodes);
        }
        let digest = compute_digest(&self.nodes, &kind, external);
        let ghost before = self@;
        let ghost model = kind@;
        self.nodes.push(MastNode { kind, digest });
        proof {
            assert(self@.nodes =~= before.nodes.push(NodeModel { kind: model, digest }));
        }
        Ok(MastNodeId(len as u32))
    }

    /// Adds a basic block of the given operations.
    ///
    /// Refuses a block without operations.
    pub fn add_block(&mut self, ops: &Vec<Operation>) -> (res: Result<MastNodeId, MastForestError>)
        requires
            old(self)@.wf(),
            ops@.len() <= u32::MAX,
            forall|i: int| 0 <= i < ops@.len() ==> (#[trigger] ops@[i]).wf(),
        ensures
            final(self)@.wf(),
            ops@.len() == 0 ==> res == Err::<MastNodeId, MastForestError>(
                MastForestError::EmptyBasicBlock,
            ) && final(self)@ == old(self)@,
            ops@.len() > 0 && old(self)@.nodes.len() >= MAX_NODES ==> res == Err::<
                MastNodeId,
                MastForestError,
            >(MastForestError::TooManyNodes) && final(self)@ == old(self)@,
            ops@.len() > 0 && old(self)@.nodes.len() < MAX_NODES ==> {
                let node = final(self)@.nodes.last();
                &&& res == Ok::<MastNodeId, MastForestError>(
                    MastNodeId(old(self)@.nodes.len() as u32),
                )
                &&& final(self)@ == (ForestModel {
                    nodes: old(self)@.nodes.push(node),
                    ..old(self)@
                })
                &&& node == (NodeModel {
                    kind: KindModel::Block(batched(ops@)),
                    digest: block_digest(batched(ops@)),
                })
            },
    {
        if ops.len() == 0 {
            return Err(MastForestError::EmptyBasicBlock);
        }
        let batches = batch_operations(ops);
        let ghost bs = models(batches@);
        proof {
            assert forall|i: int| 0 <= i < bs.len() implies (#[trigger] bs[i]).wf() by {
                assert(batches@[i]@.wf());
            }
        }
        self.add_node(NodeKind::Block(batches), Word::default())
    }

    /// Checks that the nodes are in dense order.
    pub fn validate_dense_node_order(&self) -> (res: Result<(), InvalidValue>)
        ensures
            match order_fault(bare_entries(self@.nodes), digests_of(self@.nodes), self@.nodes.len()) {
                Some(e) => res == Err::<(), InvalidValue>(e),
                None => res is Ok,
            },
    {
        let ghost entries = bare_entries(self@.nodes);
        let ghost digests = digests_of(self@.nodes);
        let n: usize = self.nodes.len();
        let mut previous: Option<MastNodeEntry> = None;
        let mut previous_digest = Word::default();
        let mut i: usize = 0;
        while i < n
            invariant
                i <= n == self.nodes@.len(),
                entries == bare_entries(self@.nodes),
                digests == digests_of(self@.nodes),
                previous is None <==> i == 0,
                i > 0 ==> previous == Some(entries[i - 1]) && previous_digest == digests[i - 1],
                order_fault(entries, digests, i as nat) is None,
            decreases n - i,
        {
            let entry = MastNodeEntry::new(&self.nodes[i], 0);
            let digest = self.nodes[i].digest;
            assert(entries.len() > i && digests.len() == entries.len());
            if let Some(e) = check_place(i, previous, entry, previous_digest, digest) {
                proof {
                    lemma_order_fault(entries, digests, (i + 1) as nat, n as nat);
                }
                return Err(e);
            }
            previous = Some(entry);
            previous_digest = digest;
            i += 1;
        }
        Ok(())
    }
}

/// The elements of the digests of the first `k` procedure roots.
pub open spec fn root_elements(forest: ForestModel, k: nat) -> Seq<Felt>
    decreases k,
{
    if k == 0 {
        Seq::empty()
    } else {
        let d = forest.nodes[forest.roots[k - 1].0 as int].digest;
        root_elements(forest, (k - 1) as nat) + seq![d.w0, d.w1, d.w2, d.w3]
    }
}

/// The commitment to the procedure roots and the first `k` entries of the advice map.
pub open spec fn commitment_of(forest: ForestModel, k: nat) -> Word
    decreases k,
{
    if k == 0 {
        hash_elements_spec(root_elements(forest, forest.roots.len()))
    } else {
        let (key, values) = forest.advice_map[k - 1];
        merge_in_domain_spec(
            commitment_of(forest, (k - 1) as nat),
            merge_in_domain_spec(key, hash_elements_spec(values), ADVICE_DOMAIN),
            ADVICE_DOMAIN,
        )
    }
}

/// Why a node cannot be added.
pub open spec fn added(forest: ForestModel, kind: KindModel) -> Option<MastForestError> {
    let n = forest.nodes.len();
    let c = kind.children();
    if c.len() > 0 && c[0].0 >= n {
        Some(MastForestError::NodeIdOverflow(c[0], n as usize))
    } else if c.len() > 1 && c[1].0 >= n {
        Some(MastForestError::NodeIdOverflow(c[1], n as usize))
    } else if n >= MAX_NODES {
        Some(MastForestError::TooManyNodes)
    } else {
        None
    }
}

proof fn lemma_same_root_elements(a: ForestModel, b: ForestModel, k: nat)
    requires
        k <= a.roots.len(),
        a.roots.len() == b.roots.len(),
        forall|i: int|
            0 <= i < a.roots.len() ==> a.nodes[(#[trigger] a.roots[i]).0 as int].digest
                == b.nodes[b.roots[i].0 as int].digest,
    ensures
        root_elements(a, k) == root_elements(b, k),
    decreases k,
{
    if k > 0 {
        lemma_same_root_elements(a, b, (k - 1) as nat);
        assert(a.nodes[a.roots[k - 1].0 as int].digest == b.nodes[b.roots[k - 1].0 as int].digest);
    }
}

/// What a forest is committed to is what it offers: forests whose roots have the same digests, in
/// the same order, and whose advice is the same have the same commitment, whatever else they hold
/// and wherever it stands; and every entry of the advice goes into it.
pub proof fn law_commitments_are_to_what_is_offered(a: ForestModel, b: ForestModel, k: nat)
    requires
        k <= a.advice_map.len(),
        a.roots.len() == b.roots.len(),
        forall|i: int|
            0 <= i < a.roots.len() ==> a.nodes[(#[trigger] a.roots[i]).0 as int].digest
                == b.nodes[b.roots[i].0 as int].digest,
        a.advice_map == b.advice_map,
    ensures
        commitment_of(a, k) == commitment_of(b, k),
        k > 0 ==> commitment_of(a, k) == merge_in_domain_spec(
            commitment_of(a, (k - 1) as nat),
            merge_in_domain_spec(
                a.advice_map[k - 1].0,
                hash_elements_spec(a.advice_map[k - 1].1),
                ADVICE_DOMAIN,
            ),
            ADVICE_DOMAIN,
        ),
        root_elements(a, a.roots.len()).len() == 4 * a.roots.len(),
    decreases k,
{
    lemma_same_root_elements(a, b, a.roots.len());
    lemma_root_elements_len(a, a.roots.len());
    if k > 0 {
        law_commitments_are_to_what_is_offered(a, b, (k - 1) as nat);
    }
}

proof fn lemma_root_elements_len(a: ForestModel, k: nat)
    ensures
        root_elements(a, k).len() == 4 * k,
    decreases k,
{
    if k > 0 {
        lemma_root_elements_len(a, (k - 1) as nat);
    }
}

} // verus!
