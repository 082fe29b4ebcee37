//! Random access to forests, in memory or serialized.

use vstd::prelude::*;

use crate::block::write_block;
use crate::error::{DeserializationError, InvalidValue};
use crate::felt::Word;
use crate::forest::{AdviceMap, AdviceModel, MastForest};
use crate::layout::{
    layout_inside, read_advice_map, read_header_and_scan_layout, refused, word_at, ForestLayout,
};
use crate::node::{entry_of, MastNodeEntry, MastNodeId, MastNodeInfo, NodeKind};
use crate::read::{
    check_no_trailing_payload, decoded, digest_slot, entry_at, ordered, read_node_entry_at,
    read_procedure_root_at, root_at, trusted, ResolvedSerializedForest,
};
use crate::wire::{block_data, lemma_block_data_monotone, wire_entry};

verus! {

/// How trusted bytes are read.
#[derive(Clone, Copy, PartialEq, Eq, Structural, Debug)]
pub enum MastForestReadMode {
    /// Read the whole forest into memory.
    Materialized,
    /// Keep the bytes and read from them on demand.
    WireBacked,
}

/// Read-only access to a forest.
pub trait MastForestView {
    /// The forest can be accessed.
    spec fn accessible(&self) -> bool;

    spec fn count(&self) -> nat;

    spec fn root_count(&self) -> nat;

    spec fn entry(&self, index: nat) -> Result<MastNodeEntry, DeserializationError>;

    spec fn digest(&self, index: nat) -> Result<Word, DeserializationError>;

    spec fn root(&self, index: nat) -> Result<MastNodeId, DeserializationError>;

    spec fn advice(&self) -> AdviceModel;

    fn node_count(&self) -> (n: usize)
        requires
            self.accessible(),
        ensures
            n == self.count(),
    ;

    fn node_entry_at(&self, index: usize) -> (res: Result<MastNodeEntry, DeserializationError>)
        requires
            self.accessible(),
        ensures
            res == self.entry(index as nat),
    ;

    fn node_digest_at(&self, index: usize) -> (res: Result<Word, DeserializationError>)
        requires
            self.accessible(),
        ensures
            res == self.digest(index as nat),
    ;

    fn procedure_root_count(&self) -> (n: usize)
        requires
            self.accessible(),
        ensures
            n == self.root_count(),
    ;

    fn procedure_root_at(&self, index: usize) -> (res: Result<MastNodeId, DeserializationError>)
        requires
            self.accessible(),
        ensures
            res == self.root(index as nat),
    ;

    fn advice_map(&self) -> (map: &AdviceMap)
        requires
            self.accessible(),
        ensures
            map@ == self.advice(),
    ;

    fn node_info_at(&self, index: usize) -> (res: Result<MastNodeInfo, DeserializationError>)
        requires
            self.accessible(),
        ensures
            res == (match self.entry(index as nat) {
                Err(e) => Err::<MastNodeInfo, DeserializationError>(e),
                Ok(entry) => match self.digest(index as nat) {
                    Err(e) => Err(e),
                    Ok(digest) => Ok(MastNodeInfo { entry, digest }),
                },
            }),
    ;
}

// FORESTS IN MEMORY
// ================================================================================================

impl MastForestView for MastForest {
    open spec fn accessible(&self) -> bool {
        self@.wf() && block_data(self@.nodes, self@.nodes.len()).len() <= u32::MAX
    }

    open spec fn count(&self) -> nat {
        self@.nodes.len()
    }

    open spec fn root_count(&self) -> nat {
        self@.roots.len()
    }

    open spec fn entry(&self, index: nat) -> Result<MastNodeEntry, DeserializationError> {
        if index >= self@.nodes.len() {
            refused(InvalidValue::NodeIndexOutOfBounds { index: index as usize })
        } else if self@.nodes[index as int].kind is Block {
            Ok(wire_entry(self@.nodes, index as int))
        } else {
            Ok(entry_of(self@.nodes[index as int].kind, 0))
        }
    }

    open spec fn digest(&self, index: nat) -> Result<Word, DeserializationError> {
        if index >= self@.nodes.len() {
            refused(InvalidValue::NodeIndexOutOfBounds { index: index as usize })
        } else {
            Ok(self@.nodes[index as int].digest)
        }
    }

    open spec fn root(&self, index: nat) -> Result<MastNodeId, DeserializationError> {
        if index >= self@.roots.len() {
            refused(
                InvalidValue::RootIndexOutOfBounds {
                    index: index as usize,
                    count: self@.roots.len() as usize,
                },
            )
        } else {
            Ok(self@.roots[index as int])
        }
    }

    open spec fn advice(&self) -> AdviceModel {
        self@.advice_map
    }

    fn node_count(&self) -> (n: usize) {
        self.nodes.len()
    }

    fn node_entry_at(&self, index: usize) -> (res: Result<MastNodeEntry, DeserializationError>) {
        if index >= self.nodes.len() {
            return Err(
                DeserializationError::InvalidValue(InvalidValue::NodeIndexOutOfBounds { index }),
            );
        }
        let offset: u32 = match &self.nodes[index].kind {
            NodeKind::Block(_) => basic_block_offset_for_node_index(self, index),
            _ => 0,
        };
        Ok(MastNodeEntry::new(&self.nodes[index], offset))
    }

    fn node_digest_at(&self, index: usize) -> (res: Result<Word, DeserializationError>) {
        if index >= self.nodes.len() {
            return Err(
                DeserializationError::InvalidValue(InvalidValue::NodeIndexOutOfBounds { index }),
            );
        }
        Ok(self.nodes[index].digest)
    }

    fn procedure_root_count(&self) -> (n: usize) {
        self.roots.len()
    }

    fn procedure_root_at(&self, index: usize) -> (res: Result<MastNodeId, DeserializationError>) {
        if index >= self.roots.len() {
            return Err(
                DeserializationError::InvalidValue(
                    InvalidValue::RootIndexOutOfBounds { index, count: self.roots.len() },
                ),
            );
        }
        Ok(self.roots[index])
    }

    fn advice_map(&self) -> (map: &AdviceMap) {
        &self.advice_map
    }

    fn node_info_at(&self, index: usize) -> (res: Result<MastNodeInfo, DeserializationError>) {
        let entry = match self.node_entry_at(index) {
            Ok(entry) => entry,
            Err(e) => {
                return Err(e);
            },
        };
        match self.node_digest_at(index) {
            Ok(digest) => Ok(MastNodeInfo { entry, digest }),
            Err(e) => Err(e),
        }
    }
}

/// The offset of the data of a basic block: the length of the data of the blocks before it.
fn basic_block_offset_for_node_index(forest: &MastForest, index: usize) -> (offset: u32)
    requires
        forest.accessible(),
        index < forest@.nodes.len(),
    ensures
        offset == block_data(forest@.nodes, index as nat).len(),
{
    let ghost nodes = forest@.nodes;
    let mut data: Vec<u8> = Vec::new();
    let mut i: usize = 0;
    while i < index
        invariant
            i <= index < nodes.len(),
            nodes == forest@.nodes,
            forest.accessible(),
            data@ == block_data(nodes, i as nat),
        decreases index - i,
    {
        assert(nodes[i as int] == forest.nodes@[i as int]@);
        proof {
            assert(nodes[i as int].wf());
            lemma_block_data_monotone(nodes, (i + 1) as nat, nodes.len());
        }
        if let NodeKind::Block(batches) = &forest.nodes[i].kind {
            proof {
                let bs = crate::batch::models(batches@);
                crate::block::lemma_ops_bytes_len(crate::block::all_ops(bs));
            }
            write_block(batches, &mut data);
        }
        i += 1;
    }
    proof {
        lemma_block_data_monotone(nodes, index as nat, nodes.len());
    }
    data.len() as u32
}

// SERIALIZED FORESTS
// ================================================================================================

/// What a trusted payload holds besides its nodes: its layout and its advice map.
pub open spec fn viewed(bytes: Seq<u8>) -> Result<
    (ForestLayout, AdviceModel),
    DeserializationError,
> {
    match decoded(bytes, None, false) {
        Err(e) => Err(e),
        Ok((layout, advice_map, end)) => if end < bytes.len() {
            refused(InvalidValue::TrailingBytes)
        } else {
            match ordered(bytes, layout) {
                Err(e) => Err(e),
                Ok(_) => Ok((layout, advice_map)),
            }
        },
    }
}

/// A view of complete trusted bytes.
///
/// The header, the sections and the order of the nodes are checked. That digests match the nodes
/// they describe is not: that is what validation of untrusted payloads is for.
pub struct MastForestWireView<'a> {
    pub bytes: &'a [u8],
    pub layout: ForestLayout,
    pub advice_map: AdviceMap,
    pub resolved: ResolvedSerializedForest,
}

impl<'a> MastForestWireView<'a> {
    pub open spec fn wf(&self) -> bool {
        &&& viewed(self.bytes@) == Ok::<(ForestLayout, AdviceModel), DeserializationError>(
            (self.layout, self.advice_map@),
        )
        &&& layout_inside(self.layout, self.bytes@.len())
        &&& !self.layout.hashless
        &&& self.resolved.describes(self.bytes@, self.layout)
    }

    /// Opens a view.
    ///
    /// Refuses hashless payloads, bytes behind the payload, and nodes out of order.
    pub fn new(bytes: &'a [u8]) -> (res: Result<MastForestWireView<'a>, DeserializationError>)
        ensures
            match viewed(bytes@) {
                Ok((layout, advice_map)) => res is Ok && res->Ok_0.wf() && res->Ok_0.bytes@
                    == bytes@,
                Err(e) => res is Err && res->Err_0 == e,
            },
    {
        let layout = match read_header_and_scan_layout(bytes, None, false) {
            Ok(layout) => layout,
            Err(e) => {
                return Err(e);
            },
        };
        let mut offset: usize = layout.advice_offset;
        let advice_map = match read_advice_map(bytes, None, &mut offset) {
            Ok(map) => map,
            Err(e) => {
                return Err(e);
            },
        };
        if let Err(e) = check_no_trailing_payload(bytes, offset) {
            return Err(e);
        }
        let resolved = match ResolvedSerializedForest::new(bytes, layout) {
            Ok(resolved) => resolved,
            Err(e) => {
                return Err(e);
            },
        };
        if let Err(e) = resolved.validate_dense_node_order(bytes, layout) {
            return Err(e);
        }
        Ok(MastForestWireView { bytes, layout, advice_map, resolved })
    }

    /// The slot of the digest of node `index` in its section.
    pub fn digest_slot_at(&self, index: usize) -> (slot: usize)
        requires
            self.wf(),
            index < self.layout.node_count,
        ensures
            slot == digest_slot(self.resolved.entries@, index as int),
    {
        self.resolved.slots[index]
    }

    pub fn node_entry_offset(&self) -> (offset: usize)
        ensures
            offset == self.layout.entry_offset,
    {
        self.layout.entry_offset
    }

    pub fn external_digest_offset(&self) -> (offset: usize)
        ensures
            offset == self.layout.external_offset,
    {
        self.layout.external_offset
    }

    pub fn node_hash_offset(&self) -> (offset: Option<usize>)
        ensures
            offset == if self.layout.hashless {
                None::<usize>
            } else {
                Some(self.layout.hash_offset)
            },
    {
        if self.layout.hashless {
            None
        } else {
            Some(self.layout.hash_offset)
        }
    }
}

impl<'a> MastForestView for MastForestWireView<'a> {
    open spec fn accessible(&self) -> bool {
        self.wf()
    }

    open spec fn count(&self) -> nat {
        self.layout.node_count as nat
    }

    open spec fn root_count(&self) -> nat {
        self.layout.roots_count as nat
    }

    open spec fn entry(&self, index: nat) -> Result<MastNodeEntry, DeserializationError> {
        entry_at(self.bytes@, self.layout, index)
    }

    open spec fn digest(&self, index: nat) -> Result<Word, DeserializationError> {
        let entries = self.resolved.entries@;
        if index >= self.layout.node_count {
            refused(InvalidValue::NodeIndexOutOfBounds { index: index as usize })
        } else if entries[index as int] is External {
            Ok(self.resolved.externals@[digest_slot(entries, index as int)])
        } else {
            word_at(
                self.bytes@,
                (self.layout.hash_offset + 32 * digest_slot(entries, index as int)) as nat,
            )
        }
    }

    open spec fn root(&self, index: nat) -> Result<MastNodeId, DeserializationError> {
        root_at(self.bytes@, self.layout, index)
    }

    open spec fn advice(&self) -> AdviceModel {
        self.advice_map@
    }

    fn node_count(&self) -> (n: usize) {
        self.layout.node_count
    }

    fn node_entry_at(&self, index: usize) -> (res: Result<MastNodeEntry, DeserializationError>) {
        read_node_entry_at(self.bytes, self.layout, index)
    }

    fn node_digest_at(&self, index: usize) -> (res: Result<Word, DeserializationError>) {
        self.resolved.node_digest_at(self.bytes, self.layout, index)
    }

    fn procedure_root_count(&self) -> (n: usize) {
        self.layout.roots_count
    }

    fn procedure_root_at(&self, index: usize) -> (res: Result<MastNodeId, DeserializationError>) {
        read_procedure_root_at(self.bytes, self.layout, index)
    }

    fn advice_map(&self) -> (map: &AdviceMap) {
        &self.advice_map
    }

    fn node_info_at(&self, index: usize) -> (res: Result<MastNodeInfo, DeserializationError>) {
        let entry = match self.node_entry_at(index) {
            Ok(entry) => entry,
            Err(e) => {
                return Err(e);
            },
        };
        match self.node_digest_at(index) {
            Ok(digest) => Ok(MastNodeInfo { entry, digest }),
            Err(e) => Err(e),
        }
    }
}

/// A trusted forest in either form.
pub enum MastForestReadView<'a> {
    Materialized(MastForest),
    WireBacked(Box<MastForestWireView<'a>>),
}

impl MastForest {
    /// Opens trusted bytes in the requested form.
    pub fn read_view_from_bytes(bytes: &[u8], mode: MastForestReadMode) -> (res: Result<
        MastForestReadView<'_>,
        DeserializationError,
    >)
        ensures
            match mode {
                MastForestReadMode::Materialized => match trusted(bytes@) {
                    Ok(forest) => res matches Ok(MastForestReadView::Materialized(f)) && f@
                        == forest && forest.wf(),
                    Err(e) => res is Err && res->Err_0 == e,
                },
                MastForestReadMode::WireBacked => match viewed(bytes@) {
                    Ok(_) => res matches Ok(MastForestReadView::WireBacked(v)) && v.wf()
                        && v.bytes@ == bytes@,
                    Err(e) => res is Err && res->Err_0 == e,
                },
            },
    {
        match mode {
            MastForestReadMode::Materialized => match MastForest::read_from_bytes(bytes) {
                Ok(forest) => Ok(MastForestReadView::Materialized(forest)),
                Err(e) => Err(e),
            },
            MastForestReadMode::WireBacked => match MastForestWireView::new(bytes) {
                Ok(view) => Ok(MastForestReadView::WireBacked(Box::new(view))),
                Err(e) => Err(e),
            },
        }
    }
}

impl<'a> MastForestView for MastForestReadView<'a> {
    open spec fn accessible(&self) -> bool {
        match self {
            MastForestReadView::Materialized(forest) => forest.accessible(),
            MastForestReadView::WireBacked(view) => view.accessible(),
        }
    }

    open spec fn count(&self) -> nat {
        match self {
            MastForestReadView::Materialized(forest) => forest.count(),
            MastForestReadView::WireBacked(view) => view.count(),
        }
    }

    open spec fn root_count(&self) -> nat {
        match self {
            MastForestReadView::Materialized(forest) => forest.root_count(),
            MastForestReadView::WireBacked(view) => view.root_count(),
        }
    }

    open spec fn entry(&self, index: nat) -> Result<MastNodeEntry, DeserializationError> {
        match self {
            MastForestReadView::Materialized(forest) => forest.entry(index),
            MastForestReadView::WireBacked(view) => view.entry(index),
        }
    }

    open spec fn digest(&self, index: nat) -> Result<Word, DeserializationError> {
        match self {
            MastForestReadView::Materialized(forest) => forest.digest(index),
            MastForestReadView::WireBacked(view) => view.digest(index),
        }
    }

    open spec fn root(&self, index: nat) -> Result<MastNodeId, DeserializationError> {
        match self {
            MastForestReadView::Materialized(forest) => forest.root(index),
            MastForestReadView::WireBacked(view) => view.root(index),
        }
    }

    open spec fn advice(&self) -> AdviceModel {
        match self {
            MastForestReadView::Materialized(forest) => forest.advice(),
            MastForestReadView::WireBacked(view) => view.advice(),
        }
    }

    fn node_count(&self) -> (n: usize) {
        match self {
            MastForestReadView::Materialized(forest) => forest.node_count(),
            MastForestReadView::WireBacked(view) => view.node_count(),
        }
    }

    fn node_entry_at(&self, index: usize) -> (res: Result<MastNodeEntry, DeserializationError>) {
        match self {
            MastForestReadView::Materialized(forest) => forest.node_entry_at(index),
            MastForestReadView::WireBacked(view) => view.node_entry_at(index),
        }
    }

    fn node_digest_at(&self, index: usize) -> (res: Result<Word, DeserializationError>) {
        match self {
            MastForestReadView::Materialized(forest) => forest.node_digest_at(index),
            MastForestReadView::WireBacked(view) => view.node_digest_at(index),
        }
    }

    fn procedure_root_count(&self) -> (n: usize) {
        match self {
            MastForestReadView::Materialized(forest) => forest.procedure_root_count(),
            MastForestReadView::WireBacked(view) => view.procedure_root_count(),
        }
    }

    fn procedure_root_at(&self, index: usize) -> (res: Result<MastNodeId, DeserializationError>) {
        match self {
            MastForestReadView::Materialized(forest) => forest.procedure_root_at(index),
            MastForestReadView::WireBacked(view) => view.procedure_root_at(index),
        }
    }

    fn advice_map(&self) -> (map: &AdviceMap) {
        match self {
            MastForestReadView::Materialized(forest) => &forest.advice_map,
            MastForestReadView::WireBacked(view) => &view.advice_map,
        }
    }

    fn node_info_at(&self, index: usize) -> (res: Result<MastNodeInfo, DeserializationError>) {
        match self {
            MastForestReadView::Materialized(forest) => forest.node_info_at(index),
            MastForestReadView::WireBacked(view) => view.node_info_at(index),
        }
    }
}

} // verus!
