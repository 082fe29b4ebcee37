//! Sparse forests: the nodes that a run of a program visited, under the ids of the whole forest.
//!
//! A node that was visited is kept in full, or by its digest alone. On the wire, the roots come
//! first, then the full nodes and the digests, each in the order of their ids, then an advice map,
//! which is always empty.

use vstd::prelude::*;

use crate::batch::{models, BatchModel};
use crate::block::{
    all_ops, block_at, block_bytes, law_block_round_trip, lemma_ops_bytes_len, read_block_at,
    write_block,
};
use crate::bytes::{
    count_at, count_bytes, holds_at, law_count_round_trip, law_le_round_trip,
    le_bytes, le_integer, le_value, lemma_count_bytes_len, lemma_holds_at_split,
    lemma_le_bytes_len, lemma_le_value_bound, lemma_pow256_values, read_slice_at, read_u8_at,
    read_usize_at, slice_at, write_count, write_le,
};
use crate::error::{DeserializationError, InvalidValue, SparseFault};
use crate::felt::Word;
use crate::forest::{AdviceMap, MastForest, MAX_NODES};
use crate::layout::{read_word_at, word_at};
use crate::node::{copy_node, node_models, KindModel, MastNode, MastNodeId, NodeKind, NodeModel};
use crate::roundtrip::{lemma_word_bytes_len, lemma_word_round_trip};
use crate::wire::{roots_bytes, word_bytes, write_word};
use crate::debug_info::copy_vec;

verus! {

// MODEL
// ================================================================================================

/// The contents of a [`SparseMastForest`]: full nodes and digests, with their ids.
pub ghost struct SparseModel {
    pub full_ids: Seq<u32>,
    pub nodes: Seq<NodeModel>,
    pub digest_ids: Seq<u32>,
    pub digests: Seq<Word>,
    pub roots: Seq<MastNodeId>,
}

/// Ids are in order, and none occurs twice.
pub open spec fn increasing(ids: Seq<u32>) -> bool {
    forall|i: int, j: int| 0 <= i < j < ids.len() ==> ids[i] < ids[j]
}

/// Ids are those of nodes.
pub open spec fn in_range(ids: Seq<u32>) -> bool {
    forall|i: int| 0 <= i < ids.len() ==> (#[trigger] ids[i]) < MAX_NODES
}

impl SparseModel {
    /// Each list has its ids in order.
    pub open spec fn ordered(self) -> bool {
        &&& self.full_ids.len() == self.nodes.len()
        &&& self.digest_ids.len() == self.digests.len()
        &&& increasing(self.full_ids)
        &&& increasing(self.digest_ids)
    }

    /// Lists are ordered, ids are in range, and no node is kept both in full and by its digest.
    pub open spec fn wf(self) -> bool {
        &&& self.ordered()
        &&& in_range(self.full_ids)
        &&& in_range(self.digest_ids)
        &&& forall|i: int| 0 <= i < self.roots.len() ==> (#[trigger] self.roots[i]).0 < MAX_NODES
        &&& forall|i: int|
            0 <= i < self.full_ids.len() ==> !self.digest_ids.contains(#[trigger] self.full_ids[i])
    }

    /// A node is kept, in full or by its digest.
    pub open spec fn knows(self, id: u32) -> bool {
        self.full_ids.contains(id) || self.digest_ids.contains(id)
    }

    /// The children of full nodes are kept.
    pub open spec fn complete(self) -> bool {
        forall|i: int, c: int|
            0 <= i < self.nodes.len() && 0 <= c < self.nodes[i].kind.children().len()
                ==> self.knows((#[trigger] self.nodes[i].kind.children()[c]).0)
    }

    /// What is wrong with lists that are ordered.
    pub open spec fn has_fault(self, fault: SparseFault) -> bool {
        match fault {
            SparseFault::FullId { id } => id >= MAX_NODES && self.full_ids.contains(id),
            SparseFault::DigestId { id } => id >= MAX_NODES && self.digest_ids.contains(id),
            SparseFault::RootId { id } => id >= MAX_NODES && self.roots.contains(MastNodeId(id)),
            SparseFault::Overlap { id } => self.full_ids.contains(id) && self.digest_ids.contains(
                id,
            ),
            SparseFault::MissingChild { node, child } => !self.knows(child) && exists|i: int|
                0 <= i < self.nodes.len() && #[trigger] self.full_ids[i] == node
                    && self.nodes[i].kind.children().contains(MastNodeId(child)),
            _ => false,
        }
    }

    /// An id is that of a node that is kept, or of a root.
    pub open spec fn mentions(self, id: int) -> bool {
        self.knows(id as u32) || self.roots.contains(MastNodeId(id as u32))
    }
}

/// A sparse forest.
pub struct SparseMastForest {
    pub full_ids: Vec<u32>,
    pub nodes: Vec<MastNode>,
    pub digest_ids: Vec<u32>,
    pub digests: Vec<Word>,
    pub roots: Vec<MastNodeId>,
    pub advice_map: AdviceMap,
}

// LOOKUP
// ================================================================================================

/// Where an id stands in a list, or where it would have to.
pub fn find_id(ids: &Vec<u32>, id: u32) -> (at: Result<usize, usize>)
    requires
        increasing(ids@),
    ensures
        match at {
            Ok(i) => i < ids@.len() && ids@[i as int] == id,
            Err(i) => {
                &&& i <= ids@.len()
                &&& !ids@.contains(id)
                &&& forall|k: int| 0 <= k < i ==> ids@[k] < id
                &&& forall|k: int| i <= k < ids@.len() ==> id < ids@[k]
            },
        },
{
    let mut low: usize = 0;
    let mut high: usize = ids.len();
    while low < high
        invariant
            low <= high <= ids@.len(),
            increasing(ids@),
            forall|k: int| 0 <= k < low ==> ids@[k] < id,
            forall|k: int| high <= k < ids@.len() ==> id < ids@[k],
        decreases high - low,
    {
        let mid: usize = low + (high - low) / 2;
        if ids[mid] == id {
            return Ok(mid);
        }
        if ids[mid] < id {
            low = mid + 1;
        } else {
            high = mid;
        }
    }
    Err(low)
}

impl SparseMastForest {
    pub open spec fn view(&self) -> SparseModel {
        SparseModel {
            full_ids: self.full_ids@,
            nodes: node_models(self.nodes@),
            digest_ids: self.digest_ids@,
            digests: self.digests@,
            roots: self.roots@,
        }
    }

    /// The advice map is empty, and the lists are ordered.
    pub open spec fn wf(&self) -> bool {
        self.advice_map@.len() == 0 && self@.wf()
    }

    /// The node of an id, if it is kept in full.
    pub fn get_node_by_id(&self, id: MastNodeId) -> (node: Option<&MastNode>)
        requires
            self.wf(),
        ensures
            match node {
                Some(node) => exists|i: int|
                    0 <= i < self@.full_ids.len() && #[trigger] self@.full_ids[i] == id.0
                        && self@.nodes[i] == node@,
                None => !self@.full_ids.contains(id.0),
            },
    {
        match find_id(&self.full_ids, id.0) {
            Ok(i) => {
                assert(self@.full_ids[i as int] == id.0);
                assert(self@.nodes[i as int] == self.nodes@[i as int]@);
                Some(&self.nodes[i])
            },
            Err(_) => None,
        }
    }

    /// The digest of an id, if it is kept at all.
    pub fn get_digest_by_id(&self, id: MastNodeId) -> (digest: Option<Word>)
        requires
            self.wf(),
        ensures
            match digest {
                Some(digest) => {
                    ||| exists|i: int|
                        0 <= i < self@.full_ids.len() && #[trigger] self@.full_ids[i] == id.0
                            && self@.nodes[i].digest == digest
                    ||| exists|i: int|
                        0 <= i < self@.digest_ids.len() && #[trigger] self@.digest_ids[i] == id.0
                            && self@.digests[i] == digest
                },
                None => !self@.knows(id.0),
            },
    {
        match find_id(&self.full_ids, id.0) {
            Ok(i) => {
                assert(self@.full_ids[i as int] == id.0);
                assert(self@.nodes[i as int] == self.nodes@[i as int]@);
                Some(self.nodes[i].digest())
            },
            Err(_) => match find_id(&self.digest_ids, id.0) {
                Ok(i) => {
                    assert(self@.digest_ids[i as int] == id.0);
                    Some(self.digests[i])
                },
                Err(_) => None,
            },
        }
    }

    /// The roots of the procedures.
    pub fn procedure_roots(&self) -> (roots: &Vec<MastNodeId>)
        ensures
            roots@ == self@.roots,
    {
        &self.roots
    }

    /// The advice map, which is empty.
    pub fn advice_map(&self) -> (map: &AdviceMap)
        ensures
            *map == self.advice_map,
    {
        &self.advice_map
    }

    /// How many ids there are up to the last one that is mentioned.
    pub fn num_nodes(&self) -> (n: usize)
        requires
            self.wf(),
        ensures
            n <= MAX_NODES,
            n > 0 ==> self@.mentions(n - 1),
            forall|id: u32| self@.mentions(id as int) ==> id < n,
    {
        let mut n: usize = 0;
        if self.full_ids.len() > 0 {
            n = self.full_ids[self.full_ids.len() - 1] as usize + 1;
            assert(self@.full_ids.contains((n - 1) as u32));
        }
        if self.digest_ids.len() > 0 {
            let last: usize = self.digest_ids[self.digest_ids.len() - 1] as usize + 1;
            if last > n {
                n = last;
                assert(self@.digest_ids.contains((n - 1) as u32));
            }
        }
        let ghost kept = n;
        let mut i: usize = 0;
        while i < self.roots.len()
            invariant
                i <= self.roots@.len(),
                kept <= n <= MAX_NODES,
                self.wf(),
                n > 0 ==> self@.mentions(n - 1),
                forall|k: int| 0 <= k < i ==> (#[trigger] self.roots@[k]).0 < n,
            decreases self.roots@.len() - i,
        {
            assert(self@.roots[i as int].0 < MAX_NODES);
            let end: usize = self.roots[i].to_usize() + 1;
            if end > n {
                n = end;
                assert(self.roots@[i as int] == MastNodeId((n - 1) as u32));
                assert(self@.roots.contains(MastNodeId((n - 1) as u32)));
            }
            i += 1;
        }
        assert forall|id: u32| self@.mentions(id as int) implies id < n by {
            if self@.full_ids.contains(id) {
                let k = choose|k: int| 0 <= k < self@.full_ids.len() && self@.full_ids[k] == id;
                assert(id <= self.full_ids@[self.full_ids@.len() - 1]);
            } else if self@.digest_ids.contains(id) {
                let k = choose|k: int| 0 <= k < self@.digest_ids.len() && self@.digest_ids[k] == id;
                assert(id <= self.digest_ids@[self.digest_ids@.len() - 1]);
            } else {
                let k = choose|k: int|
                    0 <= k < self@.roots.len() && self@.roots[k] == MastNodeId(id);
                assert(self.roots@[k].0 < n);
            }
        }
        n
    }
}

// PARTS
// ================================================================================================

/// Pairs of ids and values, in the order of their ids.
pub open spec fn lists<V>(ids: Seq<u32>, values: Seq<V>, pairs: Seq<(u32, V)>) -> bool {
    &&& ids.len() == pairs.len()
    &&& values.len() == pairs.len()
    &&& increasing(ids)
    &&& forall|k: int| 0 <= k < pairs.len() ==> is_entry(ids, values, #[trigger] pairs[k])
    &&& forall|i: int| 0 <= i < ids.len() ==> pairs.contains((#[trigger] ids[i], values[i]))
}

pub open spec fn is_entry<V>(ids: Seq<u32>, values: Seq<V>, pair: (u32, V)) -> bool {
    exists|i: int| 0 <= i < ids.len() && #[trigger] ids[i] == pair.0 && values[i] == pair.1
}

/// An id occurs twice.
pub open spec fn occurs_twice<V>(pairs: Seq<(u32, V)>, id: u32) -> bool {
    exists|i: int, j: int|
        0 <= i < j < pairs.len() && #[trigger] pairs[i].0 == id && #[trigger] pairs[j].0 == id
}

pub open spec fn node_pairs(nodes: Seq<(MastNodeId, MastNode)>) -> Seq<(u32, NodeModel)> {
    Seq::new(nodes.len(), |i: int| (nodes[i].0.0, nodes[i].1@))
}

pub open spec fn digest_pairs(digests: Seq<(MastNodeId, Word)>) -> Seq<(u32, Word)> {
    Seq::new(digests.len(), |i: int| (digests[i].0.0, digests[i].1))
}

/// A sparse forest is made of parts.
pub open spec fn made_of(
    m: SparseModel,
    nodes: Seq<(u32, NodeModel)>,
    digests: Seq<(u32, Word)>,
    roots: Seq<MastNodeId>,
) -> bool {
    &&& lists(m.full_ids, m.nodes, nodes)
    &&& lists(m.digest_ids, m.digests, digests)
    &&& m.roots == roots
}

/// What is wrong with parts.
pub open spec fn parts_fault(
    nodes: Seq<(u32, NodeModel)>,
    digests: Seq<(u32, Word)>,
    roots: Seq<MastNodeId>,
    advice: nat,
    fault: SparseFault,
) -> bool {
    match fault {
        SparseFault::AdviceEntries { count } => count == advice && advice > 0,
        SparseFault::DuplicateFull { id } => occurs_twice(nodes, id),
        SparseFault::DuplicateDigest { id } => occurs_twice(digests, id),
        _ => exists|m: SparseModel| #[trigger]
            made_of(m, nodes, digests, roots) && m.has_fault(fault),
    }
}

proof fn lemma_listed<V>(
    ids: Seq<u32>,
    values: Seq<V>,
    pairs: Seq<(u32, V)>,
    at: int,
    id: u32,
    value: V,
)
    requires
        lists(ids, values, pairs),
        0 <= at <= ids.len(),
        forall|k: int| 0 <= k < at ==> ids[k] < id,
        forall|k: int| at <= k < ids.len() ==> id < ids[k],
    ensures
        lists(ids.insert(at, id), values.insert(at, value), pairs.push((id, value))),
{
    let more_ids = ids.insert(at, id);
    let more_values = values.insert(at, value);
    let more = pairs.push((id, value));
    assert forall|k: int| 0 <= k < more.len() implies is_entry(
        more_ids,
        more_values,
        #[trigger] more[k],
    ) by {
        if k < pairs.len() {
            assert(is_entry(ids, values, pairs[k]));
            let i = choose|i: int|
                0 <= i < ids.len() && #[trigger] ids[i] == pairs[k].0 && values[i] == pairs[k].1;
            let j = if i < at {
                i
            } else {
                i + 1
            };
            assert(more_ids[j] == ids[i] && more_values[j] == values[i]);
        } else {
            assert(more_ids[at] == id && more_values[at] == value);
        }
    }
    assert forall|i: int| 0 <= i < more_ids.len() implies more.contains(
        (#[trigger] more_ids[i], more_values[i]),
    ) by {
        if i == at {
            assert(more[pairs.len() as int] == (id, value));
        } else {
            let j = if i < at {
                i
            } else {
                i - 1
            };
            assert(more_ids[i] == ids[j] && more_values[i] == values[j]);
            assert(pairs.contains((ids[j], values[j])));
            let k = choose|k: int| 0 <= k < pairs.len() && pairs[k] == (ids[j], values[j]);
            assert(more[k] == pairs[k]);
        }
    }
}

/// An id that is listed occurs among the pairs.
proof fn lemma_occurs_twice<V>(
    ids: Seq<u32>,
    values: Seq<V>,
    pairs: Seq<(u32, V)>,
    all: Seq<(u32, V)>,
    id: u32,
)
    requires
        lists(ids, values, pairs),
        pairs.len() < all.len(),
        pairs == all.take(pairs.len() as int),
        all[pairs.len() as int].0 == id,
        ids.contains(id),
    ensures
        occurs_twice(all, id),
{
    let i = choose|i: int| 0 <= i < ids.len() && ids[i] == id;
    assert(pairs.contains((ids[i], values[i])));
    let k = choose|k: int| 0 <= k < pairs.len() && pairs[k] == (ids[i], values[i]);
    assert(all[k] == pairs[k]);
    assert(all[k].0 == id && all[pairs.len() as int].0 == id);
}

fn refuse(fault: SparseFault) -> (e: DeserializationError)
    ensures
        e == sparse_error(fault),
{
    DeserializationError::InvalidValue(InvalidValue::Sparse(fault))
}

pub open spec fn sparse_error(fault: SparseFault) -> DeserializationError {
    DeserializationError::InvalidValue(InvalidValue::Sparse(fault))
}

impl SparseMastForest {
    /// Tells whether a node is kept.
    fn keeps(&self, id: u32) -> (res: bool)
        requires
            self@.ordered(),
        ensures
            res == self@.knows(id),
    {
        match find_id(&self.full_ids, id) {
            Ok(i) => {
                assert(self@.full_ids[i as int] == id);
                true
            },
            Err(_) => match find_id(&self.digest_ids, id) {
                Ok(i) => {
                    assert(self@.digest_ids[i as int] == id);
                    true
                },
                Err(_) => false,
            },
        }
    }

    /// A child of a node that is not kept.
    fn missing_child(&self, kind: &NodeKind) -> (child: Option<u32>)
        requires
            self@.ordered(),
        ensures
            match child {
                Some(c) => !self@.knows(c) && kind@.children().contains(MastNodeId(c)),
                None => forall|c: int|
                    0 <= c < kind@.children().len() ==> self@.knows(
                        (#[trigger] kind@.children()[c]).0,
                    ),
            },
    {
        match kind {
            NodeKind::Join(a, b) | NodeKind::Split(a, b) => {
                proof {
                    assert(kind@.children() =~= seq![*a, *b]);
                    assert(kind@.children()[0] == *a && kind@.children()[1] == *b);
                }
                if !self.keeps(a.0) {
                    Some(a.0)
                } else if !self.keeps(b.0) {
                    Some(b.0)
                } else {
                    None
                }
            },
            NodeKind::Loop(a) | NodeKind::Call(a) | NodeKind::SysCall(a) => {
                proof {
                    assert(kind@.children() =~= seq![*a]);
                    assert(kind@.children()[0] == *a);
                }
                if !self.keeps(a.0) {
                    Some(a.0)
                } else {
                    None
                }
            },
            _ => None,
        }
    }

    /// Looks for a fault of ordered lists.
    fn check(&self) -> (res: Result<(), SparseFault>)
        requires
            self@.ordered(),
        ensures
            match res {
                Ok(_) => self@.wf() && self@.complete(),
                Err(fault) => self@.has_fault(fault),
            },
    {
        let mut i: usize = 0;
        while i < self.full_ids.len()
            invariant
                i <= self.full_ids@.len(),
                self@.ordered(),
                forall|k: int| 0 <= k < i ==> (#[trigger] self@.full_ids[k]) < MAX_NODES,
                forall|k: int|
                    0 <= k < i ==> !self@.digest_ids.contains(#[trigger] self@.full_ids[k]),
            decreases self.full_ids@.len() - i,
        {
            let id: u32 = self.full_ids[i];
            assert(self@.full_ids[i as int] == id);
            if id as usize >= MAX_NODES {
                return Err(SparseFault::FullId { id });
            }
            if let Ok(k) = find_id(&self.digest_ids, id) {
                assert(self@.digest_ids[k as int] == id);
                return Err(SparseFault::Overlap { id });
            }
            i += 1;
        }
        let mut i: usize = 0;
        while i < self.digest_ids.len()
            invariant
                i <= self.digest_ids@.len(),
                forall|k: int| 0 <= k < i ==> (#[trigger] self@.digest_ids[k]) < MAX_NODES,
            decreases self.digest_ids@.len() - i,
        {
            let id: u32 = self.digest_ids[i];
            assert(self@.digest_ids[i as int] == id);
            if id as usize >= MAX_NODES {
                return Err(SparseFault::DigestId { id });
            }
            i += 1;
        }
        let mut i: usize = 0;
        while i < self.roots.len()
            invariant
                i <= self.roots@.len(),
                forall|k: int| 0 <= k < i ==> (#[trigger] self@.roots[k]).0 < MAX_NODES,
            decreases self.roots@.len() - i,
        {
            let id: u32 = self.roots[i].0;
            assert(self@.roots[i as int] == MastNodeId(id));
            if id as usize >= MAX_NODES {
                return Err(SparseFault::RootId { id });
            }
            i += 1;
        }
        let mut i: usize = 0;
        while i < self.nodes.len()
            invariant
                i <= self.nodes@.len(),
                self@.ordered(),
                forall|k: int, c: int|
                    0 <= k < i && 0 <= c < self@.nodes[k].kind.children().len() ==> self@.knows(
                        (#[trigger] self@.nodes[k].kind.children()[c]).0,
                    ),
            decreases self.nodes@.len() - i,
        {
            assert(self@.nodes[i as int] == self.nodes@[i as int]@);
            if let Some(child) = self.missing_child(&self.nodes[i].kind) {
                assert(self@.full_ids[i as int] == self.full_ids@[i as int]);
                return Err(SparseFault::MissingChild { node: self.full_ids[i], child });
            }
            i += 1;
        }
        Ok(())
    }

    /// A sparse forest of nodes, digests and roots, in any order.
    ///
    /// Refuses ids that occur twice or are out of range, nodes whose children are not kept, and an
    /// advice map with entries.
    pub fn from_serialized_parts(
        nodes: Vec<(MastNodeId, MastNode)>,
        digests: Vec<(MastNodeId, Word)>,
        roots: Vec<MastNodeId>,
        advice_map: AdviceMap,
    ) -> (res: Result<SparseMastForest, DeserializationError>)
        ensures
            match res {
                Ok(forest) => {
                    &&& forest.wf()
                    &&& forest@.complete()
                    &&& advice_map@.len() == 0
                    &&& made_of(forest@, node_pairs(nodes@), digest_pairs(digests@), roots@)
                },
                Err(DeserializationError::InvalidValue(InvalidValue::Sparse(fault))) =>
                    parts_fault(
                        node_pairs(nodes@),
                        digest_pairs(digests@),
                        roots@,
                        advice_map@.len(),
                        fault,
                    ),
                Err(_) => false,
            },
    {
        if advice_map.len() > 0 {
            return Err(refuse(SparseFault::AdviceEntries { count: advice_map.len() }));
        }
        let ghost np = node_pairs(nodes@);
        let ghost dp = digest_pairs(digests@);
        let mut full_ids: Vec<u32> = Vec::new();
        let mut kept: Vec<MastNode> = Vec::new();
        let mut i: usize = 0;
        assert(np.take(0) =~= Seq::empty());
        while i < nodes.len()
            invariant
                i <= nodes@.len(),
                np == node_pairs(nodes@),
                lists(full_ids@, node_models(kept@), np.take(i as int)),
            decreases nodes@.len() - i,
        {
            let id: u32 = nodes[i].0.0;
            let ghost before = node_models(kept@);
            let ghost front = np.take(i as int);
            assert(np[i as int] == (id, nodes@[i as int].1@));
            match find_id(&full_ids, id) {
                Ok(at) => {
                    proof {
                        assert(full_ids@[at as int] == id);
                        lemma_occurs_twice(full_ids@, before, front, np, id);
                    }
                    return Err(refuse(SparseFault::DuplicateFull { id }));
                },
                Err(at) => {
                    let node = copy_node(&nodes[i].1);
                    proof {
                        lemma_listed(full_ids@, before, front, at as int, id, node@);
                        assert(np.take(i + 1) =~= front.push((id, node@)));
                    }
                    full_ids.insert(at, id);
                    kept.insert(at, node);
                    assert(node_models(kept@) =~= before.insert(at as int, node@));
                },
            }
            i += 1;
        }
        assert(np.take(i as int) =~= np);
        let mut digest_ids: Vec<u32> = Vec::new();
        let mut words: Vec<Word> = Vec::new();
        let mut i: usize = 0;
        assert(dp.take(0) =~= Seq::empty());
        while i < digests.len()
            invariant
                i <= digests@.len(),
                dp == digest_pairs(digests@),
                lists(digest_ids@, words@, dp.take(i as int)),
            decreases digests@.len() - i,
        {
            let id: u32 = digests[i].0.0;
            let ghost front = dp.take(i as int);
            assert(dp[i as int] == (id, digests@[i as int].1));
            match find_id(&digest_ids, id) {
                Ok(at) => {
                    proof {
                        assert(digest_ids@[at as int] == id);
                        lemma_occurs_twice(digest_ids@, words@, front, dp, id);
                    }
                    return Err(refuse(SparseFault::DuplicateDigest { id }));
                },
                Err(at) => {
                    let word = digests[i].1;
                    proof {
                        lemma_listed(digest_ids@, words@, front, at as int, id, word);
                        assert(dp.take(i + 1) =~= front.push((id, word)));
                    }
                    digest_ids.insert(at, id);
                    words.insert(at, word);
                },
            }
            i += 1;
        }
        assert(dp.take(i as int) =~= dp);
        let forest = SparseMastForest {
            full_ids,
            nodes: kept,
            digest_ids,
            digests: words,
            roots,
            advice_map,
        };
        match forest.check() {
            Ok(_) => Ok(forest),
            Err(fault) => {
                assert(made_of(forest@, np, dp, roots@));
                Err(refuse(fault))
            },
        }
    }
}

// BUILDER
// ================================================================================================

/// How a node was visited.
#[derive(Clone, Copy, PartialEq, Eq, Structural, Debug)]
pub enum VisitKind {
    FullVisit,
    DigestOnly,
}

/// Collects the nodes of a forest that a run visits.
pub struct SparseMastForestBuilder<'a> {
    pub forest: &'a MastForest,
    /// One per node of the forest.
    pub visits: Vec<Option<VisitKind>>,
}

/// The ids below `k` that were visited in a way.
pub open spec fn visited(visits: Seq<Option<VisitKind>>, kind: VisitKind, k: nat) -> Seq<u32>
    decreases k,
{
    if k == 0 {
        Seq::empty()
    } else {
        let front = visited(visits, kind, (k - 1) as nat);
        if visits[k - 1] == Some(kind) {
            front.push((k - 1) as u32)
        } else {
            front
        }
    }
}

/// What is kept of a forest.
pub open spec fn sparse_of(
    nodes: Seq<NodeModel>,
    roots: Seq<MastNodeId>,
    visits: Seq<Option<VisitKind>>,
    k: nat,
) -> SparseModel {
    let full_ids = visited(visits, VisitKind::FullVisit, k);
    let digest_ids = visited(visits, VisitKind::DigestOnly, k);
    SparseModel {
        full_ids,
        nodes: Seq::new(full_ids.len(), |i: int| nodes[full_ids[i] as int]),
        digest_ids,
        digests: Seq::new(digest_ids.len(), |i: int| nodes[digest_ids[i] as int].digest),
        roots,
    }
}

/// Ids that were visited are in order.
proof fn lemma_visited(visits: Seq<Option<VisitKind>>, kind: VisitKind, k: nat)
    requires
        k <= visits.len() <= MAX_NODES,
    ensures
        increasing(visited(visits, kind, k)),
        forall|i: int|
            0 <= i < visited(visits, kind, k).len() ==> (#[trigger] visited(visits, kind, k)[i]) < k
                && visits[visited(visits, kind, k)[i] as int] == Some(kind),
    decreases k,
{
    if k > 0 {
        lemma_visited(visits, kind, (k - 1) as nat);
    }
}

impl<'a> SparseMastForestBuilder<'a> {
    pub open spec fn wf(&self) -> bool {
        self.forest@.wf() && self.visits@.len() == self.forest@.nodes.len()
    }

    /// A builder before the first visit.
    pub fn new(forest: &'a MastForest) -> (builder: SparseMastForestBuilder<'a>)
        requires
            forest@.wf(),
        ensures
            builder.wf(),
            *builder.forest == *forest,
            forall|i: int| 0 <= i < builder.visits@.len() ==> #[trigger] builder.visits@[i] is None,
    {
        let n: usize = forest.num_nodes();
        let mut visits: Vec<Option<VisitKind>> = Vec::new();
        while visits.len() < n
            invariant
                visits@.len() <= n,
                forall|i: int| 0 <= i < visits@.len() ==> #[trigger] visits@[i] is None,
            decreases n - visits@.len(),
        {
            visits.push(None);
        }
        SparseMastForestBuilder { forest, visits }
    }

    /// Records a visit. A node that was visited in full stays so.
    pub fn record_visit(&mut self, id: MastNodeId, kind: VisitKind)
        requires
            old(self).wf(),
            id.0 < old(self).forest@.nodes.len(),
        ensures
            final(self).wf(),
            final(self).forest == old(self).forest,
            final(self).visits@ == old(self).visits@.update(
                id.0 as int,
                if old(self).visits@[id.0 as int] == Some(VisitKind::FullVisit) {
                    Some(VisitKind::FullVisit)
                } else {
                    Some(kind)
                },
            ),
    {
        let at: usize = id.to_usize();
        match self.visits[at] {
            Some(VisitKind::FullVisit) => {
                assert(self.visits@ =~= self.visits@.update(
                    id.0 as int,
                    Some(VisitKind::FullVisit),
                ));
            },
            _ => {
                self.visits[at] = Some(kind);
            },
        }
    }

    /// The sparse forest of what was visited. The advice map of the forest is left out.
    pub fn finalize(self) -> (sparse: SparseMastForest)
        requires
            self.wf(),
        ensures
            sparse.wf(),
            sparse@ == sparse_of(
                self.forest@.nodes,
                self.forest@.roots,
                self.visits@,
                self.visits@.len(),
            ),
    {
        let ghost nodes = self.forest@.nodes;
        let ghost roots = self.forest@.roots;
        let mut sparse = SparseMastForest {
            full_ids: Vec::new(),
            nodes: Vec::new(),
            digest_ids: Vec::new(),
            digests: Vec::new(),
            roots: copy_vec(&self.forest.roots),
            advice_map: AdviceMap::new(),
        };
        let mut i: usize = 0;
        proof {
            let none = sparse_of(nodes, roots, self.visits@, 0);
            assert(sparse@.nodes =~= none.nodes);
            assert(sparse@.digests =~= none.digests);
            assert(sparse@.full_ids =~= none.full_ids);
            assert(sparse@.digest_ids =~= none.digest_ids);
        }
        while i < self.visits.len()
            invariant
                i <= self.visits@.len(),
                self.wf(),
                nodes == self.forest@.nodes,
                roots == self.forest@.roots,
                sparse.advice_map@.len() == 0,
                sparse@ == sparse_of(nodes, roots, self.visits@, i as nat),
            decreases self.visits@.len() - i,
        {
            let ghost before = sparse@;
            let ghost next = sparse_of(nodes, roots, self.visits@, (i + 1) as nat);
            assert(nodes[i as int] == self.forest.nodes@[i as int]@);
            match self.visits[i] {
                Some(VisitKind::FullVisit) => {
                    sparse.full_ids.push(i as u32);
                    sparse.nodes.push(copy_node(&self.forest.nodes[i]));
                    assert(sparse@.nodes =~= before.nodes.push(nodes[i as int]));
                },
                Some(VisitKind::DigestOnly) => {
                    sparse.digest_ids.push(i as u32);
                    sparse.digests.push(self.forest.nodes[i].digest());
                },
                None => {},
            }
            proof {
                lemma_visited(self.visits@, VisitKind::FullVisit, i as nat);
                lemma_visited(self.visits@, VisitKind::DigestOnly, i as nat);
                assert(sparse@.full_ids =~= next.full_ids);
                assert(sparse@.nodes =~= next.nodes);
                assert(sparse@.digest_ids =~= next.digest_ids);
                assert(sparse@.digests =~= next.digests);
            }
            i += 1;
        }
        proof {
            lemma_visited(self.visits@, VisitKind::FullVisit, i as nat);
            lemma_visited(self.visits@, VisitKind::DigestOnly, i as nat);
            assert forall|k: int| 0 <= k < sparse@.full_ids.len() implies !sparse@.digest_ids.contains(
                #[trigger] sparse@.full_ids[k],
            ) by {
                if sparse@.digest_ids.contains(sparse@.full_ids[k]) {
                    let j = choose|j: int|
                        0 <= j < sparse@.digest_ids.len() && sparse@.digest_ids[j]
                            == sparse@.full_ids[k];
                    assert(self.visits@[sparse@.digest_ids[j] as int] == Some(
                        VisitKind::DigestOnly,
                    ));
                }
            }
        }
        sparse
    }
}

// WIRE FORMAT
// ================================================================================================

/// The byte that tells the kind of a node.
pub open spec fn kind_tag(kind: KindModel) -> u8 {
    match kind {
        KindModel::Block(_) => 0,
        KindModel::Join(_, _) => 1,
        KindModel::Split(_, _) => 2,
        KindModel::Loop(_) => 3,
        KindModel::Call(_) => 4,
        KindModel::SysCall(_) => 5,
        KindModel::Dyn => 6,
        KindModel::Dyncall => 7,
        KindModel::External => 8,
    }
}

pub open spec fn id_bytes(id: u32) -> Seq<u8> {
    le_bytes(id as nat, 4)
}

/// What a node refers to: the batches of a block with their length in front, or its children.
pub open spec fn payload_bytes(kind: KindModel) -> Seq<u8> {
    match kind {
        KindModel::Block(batches) => count_bytes(block_bytes(batches).len()) + block_bytes(batches),
        KindModel::Join(a, b) => id_bytes(a.0) + id_bytes(b.0),
        KindModel::Split(a, b) => id_bytes(a.0) + id_bytes(b.0),
        KindModel::Loop(a) => id_bytes(a.0),
        KindModel::Call(a) => id_bytes(a.0),
        KindModel::SysCall(a) => id_bytes(a.0),
        _ => Seq::empty(),
    }
}

/// A full node on the wire.
pub open spec fn node_bytes(node: NodeModel) -> Seq<u8> {
    seq![kind_tag(node.kind)] + (word_bytes(node.digest) + payload_bytes(node.kind))
}

/// The first `k` full nodes on the wire, each behind its id.
pub open spec fn nodes_bytes(ids: Seq<u32>, nodes: Seq<NodeModel>, k: nat) -> Seq<u8>
    decreases k,
{
    if k == 0 {
        Seq::empty()
    } else {
        nodes_bytes(ids, nodes, (k - 1) as nat) + (id_bytes(ids[k - 1]) + node_bytes(nodes[k - 1]))
    }
}

/// The first `k` digests on the wire, each behind its id.
pub open spec fn words_bytes(ids: Seq<u32>, words: Seq<Word>, k: nat) -> Seq<u8>
    decreases k,
{
    if k == 0 {
        Seq::empty()
    } else {
        words_bytes(ids, words, (k - 1) as nat) + (id_bytes(ids[k - 1]) + word_bytes(words[k - 1]))
    }
}

/// A sparse forest on the wire.
pub open spec fn sparse_bytes(m: SparseModel) -> Seq<u8> {
    count_bytes(m.roots.len()) + (roots_bytes(m.roots) + (count_bytes(m.full_ids.len()) + (
    nodes_bytes(m.full_ids, m.nodes, m.full_ids.len()) + (count_bytes(m.digest_ids.len()) + (
    words_bytes(m.digest_ids, m.digests, m.digest_ids.len()) + count_bytes(0))))))
}

/// Nodes that can be written: well formed, with block data whose length four bytes hold.
pub open spec fn node_writable(node: NodeModel) -> bool {
    &&& node.wf()
    &&& node.kind matches KindModel::Block(batches) ==> block_bytes(batches).len() <= u32::MAX
}

/// Sparse forests that can be written.
pub open spec fn sparse_writable(m: SparseModel) -> bool {
    &&& forall|i: int| 0 <= i < m.nodes.len() ==> node_writable(#[trigger] m.nodes[i])
    &&& forall|i: int| 0 <= i < m.digests.len() ==> (#[trigger] m.digests[i]).wf()
    &&& m.roots.len() <= MAX_NODES
}

// READING
// ================================================================================================

/// The id at an offset.
pub open spec fn id_at(bytes: Seq<u8>, at: nat) -> Result<u32, DeserializationError> {
    match slice_at(bytes, at, 4) {
        Err(e) => Err(e),
        Ok(s) => Ok(le_value(s) as u32),
    }
}

/// A list of ids that starts with a count, which no forest exceeds.
pub open spec fn list_at(bytes: Seq<u8>, at: nat, fault: spec_fn(usize) -> SparseFault) -> Result<
    (nat, nat),
    DeserializationError,
> {
    match count_at(bytes, at) {
        Err(e) => Err(e),
        Ok((n, len)) => if n > MAX_NODES {
            Err(sparse_error(fault(n as usize)))
        } else {
            Ok((n, at + len))
        },
    }
}

/// The first `n` roots from an offset on, and the offset behind them.
pub open spec fn roots_at(bytes: Seq<u8>, at: nat, n: nat) -> Result<
    (Seq<MastNodeId>, nat),
    DeserializationError,
>
    decreases n,
{
    if n == 0 {
        Ok((Seq::empty(), at))
    } else {
        match roots_at(bytes, at, (n - 1) as nat) {
            Err(e) => Err(e),
            Ok((roots, end)) => match id_at(bytes, end) {
                Err(e) => Err(e),
                Ok(id) => if id >= MAX_NODES {
                    Err(sparse_error(SparseFault::RootId { id }))
                } else {
                    Ok((roots.push(MastNodeId(id)), end + 4))
                },
            },
        }
    }
}

/// The kind of a node of a tag at an offset, and the offset behind it.
pub open spec fn kind_at(bytes: Seq<u8>, tag: u8, at: nat) -> Result<
    (KindModel, nat),
    DeserializationError,
> {
    if tag == 0 {
        match count_at(bytes, at) {
            Err(e) => Err(e),
            Ok((n, len)) => match slice_at(bytes, at + len, n) {
                Err(e) => Err(e),
                Ok(data) => match block_at(data, 0) {
                    Err(e) => Err(e),
                    Ok(batches) => Ok((KindModel::Block(batches), at + len + n)),
                },
            },
        }
    } else if tag <= 2 {
        match id_at(bytes, at) {
            Err(e) => Err(e),
            Ok(a) => match id_at(bytes, at + 4) {
                Err(e) => Err(e),
                Ok(b) => Ok(
                    (
                        if tag == 1 {
                            KindModel::Join(MastNodeId(a), MastNodeId(b))
                        } else {
                            KindModel::Split(MastNodeId(a), MastNodeId(b))
                        },
                        at + 8,
                    ),
                ),
            },
        }
    } else if tag <= 5 {
        match id_at(bytes, at) {
            Err(e) => Err(e),
            Ok(a) => Ok(
                (
                    if tag == 3 {
                        KindModel::Loop(MastNodeId(a))
                    } else if tag == 4 {
                        KindModel::Call(MastNodeId(a))
                    } else {
                        KindModel::SysCall(MastNodeId(a))
                    },
                    at + 4,
                ),
            ),
        }
    } else if tag == 6 {
        Ok((KindModel::Dyn, at))
    } else if tag == 7 {
        Ok((KindModel::Dyncall, at))
    } else if tag == 8 {
        Ok((KindModel::External, at))
    } else {
        Err(
            DeserializationError::InvalidValue(
                InvalidValue::InvalidNodeType { discriminant: tag },
            ),
        )
    }
}

/// The full node at an offset, and the offset behind it.
pub open spec fn node_at(bytes: Seq<u8>, at: nat) -> Result<
    (NodeModel, nat),
    DeserializationError,
> {
    match slice_at(bytes, at, 1) {
        Err(e) => Err(e),
        Ok(s) => match word_at(bytes, at + 1) {
            Err(e) => Err(e),
            Ok(digest) => match kind_at(bytes, s[0], at + 33) {
                Err(e) => Err(e),
                Ok((kind, end)) => Ok((NodeModel { kind, digest }, end)),
            },
        },
    }
}

/// What is wrong with an id behind others of a list.
pub open spec fn id_fault(
    before: Seq<u32>,
    id: u32,
    range: SparseFault,
    order: SparseFault,
) -> Option<SparseFault> {
    if id >= MAX_NODES {
        Some(range)
    } else if before.len() > 0 && id <= before.last() {
        Some(order)
    } else {
        None
    }
}

/// The first `n` full nodes from an offset on, with their ids, and the offset behind them.
pub open spec fn nodes_at(bytes: Seq<u8>, at: nat, n: nat) -> Result<
    (Seq<u32>, Seq<NodeModel>, nat),
    DeserializationError,
>
    decreases n,
{
    if n == 0 {
        Ok((Seq::empty(), Seq::empty(), at))
    } else {
        match nodes_at(bytes, at, (n - 1) as nat) {
            Err(e) => Err(e),
            Ok((ids, nodes, end)) => match id_at(bytes, end) {
                Err(e) => Err(e),
                Ok(id) => match id_fault(
                    ids,
                    id,
                    SparseFault::FullId { id },
                    SparseFault::FullOrder { id },
                ) {
                    Some(fault) => Err(sparse_error(fault)),
                    None => match node_at(bytes, end + 4) {
                        Err(e) => Err(e),
                        Ok((node, next)) => Ok((ids.push(id), nodes.push(node), next)),
                    },
                },
            },
        }
    }
}

/// The first `n` digests from an offset on, with their ids, and the offset behind them.
pub open spec fn words_at(bytes: Seq<u8>, at: nat, n: nat) -> Result<
    (Seq<u32>, Seq<Word>, nat),
    DeserializationError,
>
    decreases n,
{
    if n == 0 {
        Ok((Seq::empty(), Seq::empty(), at))
    } else {
        match words_at(bytes, at, (n - 1) as nat) {
            Err(e) => Err(e),
            Ok((ids, words, end)) => match id_at(bytes, end) {
                Err(e) => Err(e),
                Ok(id) => match id_fault(
                    ids,
                    id,
                    SparseFault::DigestId { id },
                    SparseFault::DigestOrder { id },
                ) {
                    Some(fault) => Err(sparse_error(fault)),
                    None => match word_at(bytes, end + 4) {
                        Err(e) => Err(e),
                        Ok(word) => Ok((ids.push(id), words.push(word), end + 36)),
                    },
                },
            },
        }
    }
}

/// What bytes hold from the digests on, behind roots and full nodes.
pub open spec fn digests_at(
    bytes: Seq<u8>,
    roots: Seq<MastNodeId>,
    full_ids: Seq<u32>,
    nodes: Seq<NodeModel>,
    at: nat,
) -> Result<SparseModel, DeserializationError> {
    match list_at(bytes, at, |count: usize| SparseFault::DigestCount { count }) {
        Err(e) => Err(e),
        Ok((d, at)) => match words_at(bytes, at, d) {
            Err(e) => Err(e),
            Ok((digest_ids, digests, at)) => match count_at(bytes, at) {
                Err(e) => Err(e),
                Ok((advice, len)) => if advice > 0 {
                    Err(sparse_error(SparseFault::AdviceEntries { count: advice as usize }))
                } else if at + len != bytes.len() {
                    Err(sparse_error(SparseFault::TrailingBytes))
                } else {
                    Ok(SparseModel { full_ids, nodes, digest_ids, digests, roots })
                },
            },
        },
    }
}

/// What bytes hold from the full nodes on, behind roots.
pub open spec fn fulls_at(bytes: Seq<u8>, roots: Seq<MastNodeId>, at: nat) -> Result<
    SparseModel,
    DeserializationError,
> {
    match list_at(bytes, at, |count: usize| SparseFault::FullCount { count }) {
        Err(e) => Err(e),
        Ok((n, at)) => match nodes_at(bytes, at, n) {
            Err(e) => Err(e),
            Ok((full_ids, nodes, at)) => digests_at(bytes, roots, full_ids, nodes, at),
        },
    }
}

/// The lists that bytes hold.
pub open spec fn sparse_at(bytes: Seq<u8>) -> Result<SparseModel, DeserializationError> {
    match list_at(bytes, 0, |count: usize| SparseFault::RootCount { count }) {
        Err(e) => Err(e),
        Ok((r, at)) => match roots_at(bytes, at, r) {
            Err(e) => Err(e),
            Ok((roots, at)) => fulls_at(bytes, roots, at),
        },
    }
}

proof fn lemma_roots_error(bytes: Seq<u8>, at: nat, k: nat, n: nat)
    requires
        k <= n,
        roots_at(bytes, at, k) is Err,
    ensures
        roots_at(bytes, at, n) == roots_at(bytes, at, k),
    decreases n,
{
    if k < n {
        lemma_roots_error(bytes, at, k, (n - 1) as nat);
    }
}

proof fn lemma_nodes_error(bytes: Seq<u8>, at: nat, k: nat, n: nat)
    requires
        k <= n,
        nodes_at(bytes, at, k) is Err,
    ensures
        nodes_at(bytes, at, n) == nodes_at(bytes, at, k),
    decreases n,
{
    if k < n {
        lemma_nodes_error(bytes, at, k, (n - 1) as nat);
    }
}

proof fn lemma_words_error(bytes: Seq<u8>, at: nat, k: nat, n: nat)
    requires
        k <= n,
        words_at(bytes, at, k) is Err,
    ensures
        words_at(bytes, at, n) == words_at(bytes, at, k),
    decreases n,
{
    if k < n {
        lemma_words_error(bytes, at, k, (n - 1) as nat);
    }
}

fn read_id_at(bytes: &[u8], offset: &mut usize) -> (res: Result<u32, DeserializationError>)
    ensures
        match id_at(bytes@, *old(offset) as nat) {
            Ok(id) => res == Ok::<u32, DeserializationError>(id) && *final(offset) == *old(offset)
                + 4 && *final(offset) <= bytes@.len(),
            Err(e) => res == Err::<u32, DeserializationError>(e),
        },
{
    match read_slice_at(bytes, offset, 4) {
        Ok(s) => {
            proof {
                lemma_le_value_bound(s@);
                lemma_pow256_values();
            }
            Ok(le_integer(s) as u32)
        },
        Err(e) => Err(e),
    }
}

fn read_kind_at(bytes: &[u8], tag: u8, offset: &mut usize) -> (res: Result<
    NodeKind,
    DeserializationError,
>)
    requires
        *old(offset) <= bytes@.len(),
    ensures
        match kind_at(bytes@, tag, *old(offset) as nat) {
            Ok((kind, end)) => res is Ok && res->Ok_0@ == kind && *final(offset) == end && end
                <= bytes@.len(),
            Err(e) => res == Err::<NodeKind, DeserializationError>(e),
        },
{
    if tag == 0 {
        let n: usize = match read_usize_at(bytes, offset) {
            Ok(n) => n,
            Err(e) => {
                return Err(e);
            },
        };
        let data = match read_slice_at(bytes, offset, n) {
            Ok(data) => data,
            Err(e) => {
                return Err(e);
            },
        };
        match read_block_at(data, 0) {
            Ok(batches) => Ok(NodeKind::Block(batches)),
            Err(e) => Err(e),
        }
    } else if tag <= 2 {
        let a: u32 = match read_id_at(bytes, offset) {
            Ok(id) => id,
            Err(e) => {
                return Err(e);
            },
        };
        let b: u32 = match read_id_at(bytes, offset) {
            Ok(id) => id,
            Err(e) => {
                return Err(e);
            },
        };
        if tag == 1 {
            Ok(NodeKind::Join(MastNodeId(a), MastNodeId(b)))
        } else {
            Ok(NodeKind::Split(MastNodeId(a), MastNodeId(b)))
        }
    } else if tag <= 5 {
        let a: u32 = match read_id_at(bytes, offset) {
            Ok(id) => id,
            Err(e) => {
                return Err(e);
            },
        };
        if tag == 3 {
            Ok(NodeKind::Loop(MastNodeId(a)))
        } else if tag == 4 {
            Ok(NodeKind::Call(MastNodeId(a)))
        } else {
            Ok(NodeKind::SysCall(MastNodeId(a)))
        }
    } else if tag == 6 {
        Ok(NodeKind::Dyn)
    } else if tag == 7 {
        Ok(NodeKind::Dyncall)
    } else if tag == 8 {
        Ok(NodeKind::External)
    } else {
        Err(
            DeserializationError::InvalidValue(
                InvalidValue::InvalidNodeType { discriminant: tag },
            ),
        )
    }
}

fn read_node_at(bytes: &[u8], offset: &mut usize) -> (res: Result<MastNode, DeserializationError>)
    requires
        *old(offset) <= bytes@.len(),
    ensures
        match node_at(bytes@, *old(offset) as nat) {
            Ok((node, end)) => res is Ok && res->Ok_0@ == node && *final(offset) == end && end
                <= bytes@.len(),
            Err(e) => res == Err::<MastNode, DeserializationError>(e),
        },
{
    let tag: u8 = match read_u8_at(bytes, offset) {
        Ok(tag) => tag,
        Err(e) => {
            return Err(e);
        },
    };
    let digest = match read_word_at(bytes, offset) {
        Ok(word) => word,
        Err(e) => {
            return Err(e);
        },
    };
    match read_kind_at(bytes, tag, offset) {
        Ok(kind) => Ok(MastNode { kind, digest }),
        Err(e) => Err(e),
    }
}

fn check_id(before: &Vec<u32>, id: u32, range: SparseFault, order: SparseFault) -> (fault: Option<
    SparseFault,
>)
    ensures
        fault == id_fault(before@, id, range, order),
{
    if id as usize >= MAX_NODES {
        Some(range)
    } else if before.len() > 0 && id <= before[before.len() - 1] {
        Some(order)
    } else {
        None
    }
}

fn read_roots_at(bytes: &[u8], offset: &mut usize, n: usize) -> (res: Result<
    Vec<MastNodeId>,
    DeserializationError,
>)
    requires
        *old(offset) <= bytes@.len(),
    ensures
        match roots_at(bytes@, *old(offset) as nat, n as nat) {
            Ok((roots, end)) => res is Ok && res->Ok_0@ == roots && *final(offset) == end && end
                <= bytes@.len(),
            Err(e) => res == Err::<Vec<MastNodeId>, DeserializationError>(e),
        },
{
    let ghost start = *offset as nat;
    let mut roots: Vec<MastNodeId> = Vec::new();
    let mut i: usize = 0;
    assert(roots@ =~= Seq::empty());
    while i < n
        invariant
            i <= n,
            start == *old(offset),
            *offset <= bytes@.len(),
            roots_at(bytes@, start, i as nat) == Ok::<
                (Seq<MastNodeId>, nat),
                DeserializationError,
            >((roots@, *offset as nat)),
        decreases n - i,
    {
        let id: u32 = match read_id_at(bytes, offset) {
            Ok(id) => id,
            Err(e) => {
                proof {
                    lemma_roots_error(bytes@, start, (i + 1) as nat, n as nat);
                }
                return Err(e);
            },
        };
        if id as usize >= MAX_NODES {
            proof {
                lemma_roots_error(bytes@, start, (i + 1) as nat, n as nat);
            }
            return Err(refuse(SparseFault::RootId { id }));
        }
        roots.push(MastNodeId(id));
        i += 1;
    }
    Ok(roots)
}

fn read_nodes_at(bytes: &[u8], offset: &mut usize, n: usize) -> (res: Result<
    (Vec<u32>, Vec<MastNode>),
    DeserializationError,
>)
    requires
        *old(offset) <= bytes@.len(),
    ensures
        match nodes_at(bytes@, *old(offset) as nat, n as nat) {
            Ok((ids, nodes, end)) => res matches Ok((i, m)) && i@ == ids && node_models(m@) == nodes
                && *final(offset) == end && end <= bytes@.len(),
            Err(e) => res == Err::<(Vec<u32>, Vec<MastNode>), DeserializationError>(e),
        },
{
    let ghost start = *offset as nat;
    let mut ids: Vec<u32> = Vec::new();
    let mut nodes: Vec<MastNode> = Vec::new();
    let mut i: usize = 0;
    assert(ids@ =~= Seq::empty());
    assert(node_models(nodes@) =~= Seq::empty());
    while i < n
        invariant
            i <= n,
            start == *old(offset),
            *offset <= bytes@.len(),
            nodes_at(bytes@, start, i as nat) == Ok::<
                (Seq<u32>, Seq<NodeModel>, nat),
                DeserializationError,
            >((ids@, node_models(nodes@), *offset as nat)),
        decreases n - i,
    {
        let ghost before = node_models(nodes@);
        proof {
            if nodes_at(bytes@, start, (i + 1) as nat) is Err {
                lemma_nodes_error(bytes@, start, (i + 1) as nat, n as nat);
            }
        }
        let id: u32 = match read_id_at(bytes, offset) {
            Ok(id) => id,
            Err(e) => {
                return Err(e);
            },
        };
        if let Some(fault) = check_id(
            &ids,
            id,
            SparseFault::FullId { id },
            SparseFault::FullOrder { id },
        ) {
            return Err(refuse(fault));
        }
        let node = match read_node_at(bytes, offset) {
            Ok(node) => node,
            Err(e) => {
                return Err(e);
            },
        };
        let ghost model = node@;
        ids.push(id);
        nodes.push(node);
        assert(node_models(nodes@) =~= before.push(model));
        i += 1;
    }
    Ok((ids, nodes))
}

fn read_words_at(bytes: &[u8], offset: &mut usize, n: usize) -> (res: Result<
    (Vec<u32>, Vec<Word>),
    DeserializationError,
>)
    requires
        *old(offset) <= bytes@.len(),
    ensures
        match words_at(bytes@, *old(offset) as nat, n as nat) {
            Ok((ids, words, end)) => res matches Ok((i, w)) && i@ == ids && w@ == words
                && *final(offset) == end && end <= bytes@.len(),
            Err(e) => res == Err::<(Vec<u32>, Vec<Word>), DeserializationError>(e),
        },
{
    let ghost start = *offset as nat;
    let mut ids: Vec<u32> = Vec::new();
    let mut words: Vec<Word> = Vec::new();
    let mut i: usize = 0;
    assert(ids@ =~= Seq::empty());
    assert(words@ =~= Seq::empty());
    while i < n
        invariant
            i <= n,
            start == *old(offset),
            *offset <= bytes@.len(),
            words_at(bytes@, start, i as nat) == Ok::<
                (Seq<u32>, Seq<Word>, nat),
                DeserializationError,
            >((ids@, words@, *offset as nat)),
        decreases n - i,
    {
        proof {
            if words_at(bytes@, start, (i + 1) as nat) is Err {
                lemma_words_error(bytes@, start, (i + 1) as nat, n as nat);
            }
        }
        let id: u32 = match read_id_at(bytes, offset) {
            Ok(id) => id,
            Err(e) => {
                return Err(e);
            },
        };
        if let Some(fault) = check_id(
            &ids,
            id,
            SparseFault::DigestId { id },
            SparseFault::DigestOrder { id },
        ) {
            return Err(refuse(fault));
        }
        let word = match read_word_at(bytes, offset) {
            Ok(word) => word,
            Err(e) => {
                return Err(e);
            },
        };
        ids.push(id);
        words.push(word);
        i += 1;
    }
    Ok((ids, words))
}

/// Ids that were read are in order.
proof fn lemma_nodes_ordered(bytes: Seq<u8>, at: nat, n: nat)
    ensures
        nodes_at(bytes, at, n) matches Ok((ids, nodes, _)) ==> increasing(ids) && ids.len() == n
            && nodes.len() == n,
    decreases n,
{
    if n > 0 {
        lemma_nodes_ordered(bytes, at, (n - 1) as nat);
    }
}

proof fn lemma_words_ordered(bytes: Seq<u8>, at: nat, n: nat)
    ensures
        words_at(bytes, at, n) matches Ok((ids, words, _)) ==> increasing(ids) && ids.len() == n
            && words.len() == n,
    decreases n,
{
    if n > 0 {
        lemma_words_ordered(bytes, at, (n - 1) as nat);
    }
}

impl SparseMastForest {
    /// Reads a sparse forest.
    ///
    /// Refuses lists that are longer than a forest, ids that are out of range or not in order,
    /// entries of an advice map, bytes behind the end, and lists that do not go together.
    pub fn read_from_bytes(bytes: &[u8]) -> (res: Result<SparseMastForest, DeserializationError>)
        ensures
            match sparse_at(bytes@) {
                Err(e) => res == Err::<SparseMastForest, DeserializationError>(e),
                Ok(m) => match res {
                    Ok(forest) => forest@ == m && forest.wf() && m.complete(),
                    Err(DeserializationError::InvalidValue(InvalidValue::Sparse(fault))) =>
                        m.has_fault(fault),
                    Err(_) => false,
                },
            },
    {
        let mut offset: usize = 0;
        let r: usize = match read_usize_at(bytes, &mut offset) {
            Ok(n) => n,
            Err(e) => {
                return Err(e);
            },
        };
        if r > MAX_NODES {
            return Err(refuse(SparseFault::RootCount { count: r }));
        }
        let roots = match read_roots_at(bytes, &mut offset, r) {
            Ok(roots) => roots,
            Err(e) => {
                return Err(e);
            },
        };
        let n: usize = match read_usize_at(bytes, &mut offset) {
            Ok(n) => n,
            Err(e) => {
                return Err(e);
            },
        };
        if n > MAX_NODES {
            return Err(refuse(SparseFault::FullCount { count: n }));
        }
        proof {
            lemma_nodes_ordered(bytes@, offset as nat, n as nat);
        }
        let (full_ids, nodes) = match read_nodes_at(bytes, &mut offset, n) {
            Ok(lists) => lists,
            Err(e) => {
                return Err(e);
            },
        };
        let d: usize = match read_usize_at(bytes, &mut offset) {
            Ok(n) => n,
            Err(e) => {
                return Err(e);
            },
        };
        if d > MAX_NODES {
            return Err(refuse(SparseFault::DigestCount { count: d }));
        }
        proof {
            lemma_words_ordered(bytes@, offset as nat, d as nat);
        }
        let (digest_ids, digests) = match read_words_at(bytes, &mut offset, d) {
            Ok(lists) => lists,
            Err(e) => {
                return Err(e);
            },
        };
        let advice: usize = match read_usize_at(bytes, &mut offset) {
            Ok(n) => n,
            Err(e) => {
                return Err(e);
            },
        };
        if advice > 0 {
            return Err(refuse(SparseFault::AdviceEntries { count: advice }));
        }
        if offset != bytes.len() {
            return Err(refuse(SparseFault::TrailingBytes));
        }
        let forest = SparseMastForest {
            full_ids,
            nodes,
            digest_ids,
            digests,
            roots,
            advice_map: AdviceMap::new(),
        };
        match forest.check() {
            Ok(_) => Ok(forest),
            Err(fault) => Err(refuse(fault)),
        }
    }
}

// WRITING
// ================================================================================================

fn append_bytes(out: &mut Vec<u8>, more: &Vec<u8>)
    ensures
        final(out)@ == old(out)@ + more@,
{
    let ghost before = out@;
    let mut i: usize = 0;
    assert(out@ =~= before + more@.take(0));
    while i < more.len()
        invariant
            i <= more@.len(),
            out@ == before + more@.take(i as int),
        decreases more@.len() - i,
    {
        out.push(more[i]);
        assert(out@ =~= before + more@.take(i + 1));
        i += 1;
    }
    assert(more@.take(i as int) =~= more@);
}

fn write_payload(out: &mut Vec<u8>, node: &MastNode)
    requires
        node_writable(node@),
    ensures
        final(out)@ == old(out)@ + payload_bytes(node@.kind),
{
    let ghost before = out@;
    match &node.kind {
        NodeKind::Block(batches) => {
            proof {
                lemma_ops_bytes_len(all_ops(models(batches@)));
            }
            let mut data: Vec<u8> = Vec::new();
            write_block(batches, &mut data);
            assert(data@ =~= block_bytes(models(batches@)));
            write_count(out, data.len() as u64);
            append_bytes(out, &data);
        },
        NodeKind::Join(a, b) | NodeKind::Split(a, b) => {
            write_le(out, a.0 as u64, 4);
            write_le(out, b.0 as u64, 4);
        },
        NodeKind::Loop(a) | NodeKind::Call(a) | NodeKind::SysCall(a) => {
            write_le(out, a.0 as u64, 4);
        },
        _ => {},
    }
    assert(out@ =~= before + payload_bytes(node@.kind));
}

fn tag_of(kind: &NodeKind) -> (tag: u8)
    ensures
        tag == kind_tag(kind@),
{
    match kind {
        NodeKind::Block(_) => 0,
        NodeKind::Join(_, _) => 1,
        NodeKind::Split(_, _) => 2,
        NodeKind::Loop(_) => 3,
        NodeKind::Call(_) => 4,
        NodeKind::SysCall(_) => 5,
        NodeKind::Dyn => 6,
        NodeKind::Dyncall => 7,
        NodeKind::External => 8,
    }
}

/// Pieces that are appended one by one.
proof fn lemma_seven_pieces(
    p1: Seq<u8>,
    p2: Seq<u8>,
    p3: Seq<u8>,
    p4: Seq<u8>,
    p5: Seq<u8>,
    p6: Seq<u8>,
    p7: Seq<u8>,
)
    ensures
        (((((p1 + p2) + p3) + p4) + p5) + p6) + p7 == p1 + (p2 + (p3 + (p4 + (p5 + (p6 + p7))))),
{
    assert((((((p1 + p2) + p3) + p4) + p5) + p6) + p7 =~= p1 + (p2 + (p3 + (p4 + (p5 + (p6
        + p7))))));
}

/// Where the pieces stand in bytes that are made of them.
proof fn lemma_seven_held(
    p1: Seq<u8>,
    p2: Seq<u8>,
    p3: Seq<u8>,
    p4: Seq<u8>,
    p5: Seq<u8>,
    p6: Seq<u8>,
    p7: Seq<u8>,
)
    ensures
        ({
            let bytes = p1 + (p2 + (p3 + (p4 + (p5 + (p6 + p7)))));
            let a1 = p1.len() as int;
            let a2 = a1 + p2.len();
            let a3 = a2 + p3.len();
            let a4 = a3 + p4.len();
            let a5 = a4 + p5.len();
            let a6 = a5 + p6.len();
            &&& holds_at(bytes, 0, p1)
            &&& holds_at(bytes, a1, p2)
            &&& holds_at(bytes, a2, p3)
            &&& holds_at(bytes, a3, p4)
            &&& holds_at(bytes, a4, p5)
            &&& holds_at(bytes, a5, p6)
            &&& holds_at(bytes, a6, p7)
            &&& bytes.len() == a6 + p7.len()
        }),
{
    let bytes = p1 + (p2 + (p3 + (p4 + (p5 + (p6 + p7)))));
    let a1 = p1.len() as int;
    let a2 = a1 + p2.len();
    let a3 = a2 + p3.len();
    let a4 = a3 + p4.len();
    let a5 = a4 + p5.len();
    assert(bytes.subrange(0, bytes.len() as int) =~= bytes);
    lemma_holds_at_split(bytes, 0, p1, p2 + (p3 + (p4 + (p5 + (p6 + p7)))));
    lemma_holds_at_split(bytes, a1, p2, p3 + (p4 + (p5 + (p6 + p7))));
    lemma_holds_at_split(bytes, a2, p3, p4 + (p5 + (p6 + p7)));
    lemma_holds_at_split(bytes, a3, p4, p5 + (p6 + p7));
    lemma_holds_at_split(bytes, a4, p5, p6 + p7);
    lemma_holds_at_split(bytes, a5, p6, p7);
}

fn write_roots(out: &mut Vec<u8>, roots: &Vec<MastNodeId>)
    ensures
        final(out)@ == old(out)@ + roots_bytes(roots@),
{
    let ghost before = out@;
    let mut i: usize = 0;
    assert(roots@.take(0) =~= Seq::empty());
    assert(out@ =~= before + roots_bytes(roots@.take(0)));
    while i < roots.len()
        invariant
            i <= roots@.len(),
            out@ == before + roots_bytes(roots@.take(i as int)),
        decreases roots@.len() - i,
    {
        write_le(out, roots[i].0 as u64, 4);
        assert(roots@.take(i + 1).drop_last() =~= roots@.take(i as int));
        assert(out@ =~= before + roots_bytes(roots@.take(i + 1)));
        i += 1;
    }
    assert(roots@.take(i as int) =~= roots@);
}

fn write_nodes(out: &mut Vec<u8>, ids: &Vec<u32>, nodes: &Vec<MastNode>)
    requires
        ids@.len() == nodes@.len(),
        forall|i: int|
            0 <= i < nodes@.len() ==> node_writable(#[trigger] node_models(nodes@)[i]),
    ensures
        final(out)@ == old(out)@ + nodes_bytes(ids@, node_models(nodes@), ids@.len()),
{
    let ghost before = out@;
    let ghost all = node_models(nodes@);
    let mut i: usize = 0;
    assert(out@ =~= before + nodes_bytes(ids@, all, 0));
    while i < nodes.len()
        invariant
            i <= nodes@.len() == ids@.len(),
            all == node_models(nodes@),
            forall|k: int| 0 <= k < nodes@.len() ==> node_writable(#[trigger] all[k]),
            out@ == before + nodes_bytes(ids@, all, i as nat),
        decreases nodes@.len() - i,
    {
        let ghost front = out@;
        assert(all[i as int] == nodes@[i as int]@);
        write_le(out, ids[i] as u64, 4);
        out.push(tag_of(&nodes[i].kind));
        write_word(out, nodes[i].digest);
        write_payload(out, &nodes[i]);
        assert(out@ =~= front + (id_bytes(ids@[i as int]) + node_bytes(all[i as int])));
        assert(out@ =~= before + nodes_bytes(ids@, all, (i + 1) as nat));
        i += 1;
    }
}

fn write_words(out: &mut Vec<u8>, ids: &Vec<u32>, words: &Vec<Word>)
    requires
        ids@.len() == words@.len(),
    ensures
        final(out)@ == old(out)@ + words_bytes(ids@, words@, ids@.len()),
{
    let ghost before = out@;
    let mut i: usize = 0;
    assert(out@ =~= before + words_bytes(ids@, words@, 0));
    while i < words.len()
        invariant
            i <= words@.len() == ids@.len(),
            out@ == before + words_bytes(ids@, words@, i as nat),
        decreases words@.len() - i,
    {
        let ghost front = out@;
        write_le(out, ids[i] as u64, 4);
        write_word(out, words[i]);
        assert(out@ =~= front + (id_bytes(ids@[i as int]) + word_bytes(words@[i as int])));
        assert(out@ =~= before + words_bytes(ids@, words@, (i + 1) as nat));
        i += 1;
    }
}

impl SparseMastForest {
    /// The sparse forest on the wire.
    pub fn to_bytes(&self) -> (bytes: Vec<u8>)
        requires
            self.wf(),
            sparse_writable(self@),
        ensures
            bytes@ == sparse_bytes(self@),
    {
        let mut out: Vec<u8> = Vec::new();
        let ghost m = self@;
        let ghost p1 = count_bytes(m.roots.len());
        let ghost p2 = roots_bytes(m.roots);
        let ghost p3 = count_bytes(m.full_ids.len());
        let ghost p4 = nodes_bytes(m.full_ids, m.nodes, m.full_ids.len());
        let ghost p5 = count_bytes(m.digest_ids.len());
        let ghost p6 = words_bytes(m.digest_ids, m.digests, m.digest_ids.len());
        let ghost p7 = count_bytes(0);
        write_count(&mut out, self.roots.len() as u64);
        assert(out@ =~= p1);
        write_roots(&mut out, &self.roots);
        write_count(&mut out, self.full_ids.len() as u64);
        write_nodes(&mut out, &self.full_ids, &self.nodes);
        write_count(&mut out, self.digest_ids.len() as u64);
        write_words(&mut out, &self.digest_ids, &self.digests);
        write_count(&mut out, 0);
        assert(out@ == (((((p1 + p2) + p3) + p4) + p5) + p6) + p7);
        proof {
            lemma_seven_pieces(p1, p2, p3, p4, p5, p6, p7);
        }
        out
    }
}

// LAWS
// ================================================================================================

proof fn lemma_id_round_trip(bytes: Seq<u8>, at: nat, id: u32)
    requires
        bytes.len() <= usize::MAX,
        holds_at(bytes, at as int, id_bytes(id)),
    ensures
        id_bytes(id).len() == 4,
        id_at(bytes, at) == Ok::<u32, DeserializationError>(id),
{
    lemma_le_bytes_len(id as nat, 4);
    lemma_pow256_values();
    law_le_round_trip(id as nat, 4);
}

proof fn lemma_roots_round_trip(bytes: Seq<u8>, at: nat, roots: Seq<MastNodeId>)
    requires
        bytes.len() <= usize::MAX,
        holds_at(bytes, at as int, roots_bytes(roots)),
        forall|i: int| 0 <= i < roots.len() ==> (#[trigger] roots[i]).0 < MAX_NODES,
    ensures
        roots_at(bytes, at, roots.len()) == Ok::<(Seq<MastNodeId>, nat), DeserializationError>(
            (roots, at + roots_bytes(roots).len()),
        ),
    decreases roots.len(),
{
    if roots.len() > 0 {
        let front = roots.drop_last();
        let last = roots.last();
        lemma_holds_at_split(bytes, at as int, roots_bytes(front), id_bytes(last.0));
        assert forall|i: int| 0 <= i < front.len() implies (#[trigger] front[i]).0 < MAX_NODES by {
            assert(front[i] == roots[i]);
        }
        lemma_roots_round_trip(bytes, at, front);
        lemma_id_round_trip(bytes, at + roots_bytes(front).len(), last.0);
        assert(roots[roots.len() - 1].0 < MAX_NODES);
        assert(front.push(last) =~= roots);
    } else {
        assert(roots =~= Seq::empty());
    }
}

#[verifier::spinoff_prover]
proof fn lemma_block_kind_round_trip(
    bytes: Seq<u8>,
    at: nat,
    node: NodeModel,
    batches: Seq<BatchModel>,
)
    requires
        bytes.len() <= usize::MAX,
        node_writable(node),
        node.kind == KindModel::Block(batches),
        holds_at(bytes, at as int, payload_bytes(node.kind)),
    ensures
        kind_at(bytes, 0, at) == Ok::<(KindModel, nat), DeserializationError>(
            (node.kind, at + payload_bytes(node.kind).len()),
        ),
{
    let data = block_bytes(batches);
    let count = count_bytes(data.len());
    lemma_holds_at_split(bytes, at as int, count, data);
    law_count_round_trip(bytes, at, data.len());
    lemma_count_bytes_len(data.len());
    assert(slice_at(bytes, at + count.len(), data.len()) == Ok::<Seq<u8>, DeserializationError>(
        data,
    ));
    assert(holds_at(data, 0, data)) by {
        assert(data.subrange(0, data.len() as int) =~= data);
    }
    law_block_round_trip(data, 0, batches);
}

#[verifier::spinoff_prover]
proof fn lemma_kind_round_trip(bytes: Seq<u8>, at: nat, node: NodeModel)
    requires
        bytes.len() <= usize::MAX,
        node_writable(node),
        holds_at(bytes, at as int, payload_bytes(node.kind)),
    ensures
        kind_at(bytes, kind_tag(node.kind), at) == Ok::<(KindModel, nat), DeserializationError>(
            (node.kind, at + payload_bytes(node.kind).len()),
        ),
{
    match node.kind {
        KindModel::Block(batches) => {
            lemma_block_kind_round_trip(bytes, at, node, batches);
        },
        KindModel::Join(a, b) => {
            lemma_holds_at_split(bytes, at as int, id_bytes(a.0), id_bytes(b.0));
            lemma_id_round_trip(bytes, at, a.0);
            lemma_id_round_trip(bytes, at + 4, b.0);
        },
        KindModel::Split(a, b) => {
            lemma_holds_at_split(bytes, at as int, id_bytes(a.0), id_bytes(b.0));
            lemma_id_round_trip(bytes, at, a.0);
            lemma_id_round_trip(bytes, at + 4, b.0);
        },
        KindModel::Loop(a) => {
            lemma_id_round_trip(bytes, at, a.0);
        },
        KindModel::Call(a) => {
            lemma_id_round_trip(bytes, at, a.0);
        },
        KindModel::SysCall(a) => {
            lemma_id_round_trip(bytes, at, a.0);
        },
        _ => {},
    }
}

proof fn lemma_node_round_trip(bytes: Seq<u8>, at: nat, node: NodeModel)
    requires
        bytes.len() <= usize::MAX,
        node_writable(node),
        holds_at(bytes, at as int, node_bytes(node)),
    ensures
        node_at(bytes, at) == Ok::<(NodeModel, nat), DeserializationError>(
            (node, at + node_bytes(node).len()),
        ),
{
    let tag = seq![kind_tag(node.kind)];
    let digest = word_bytes(node.digest);
    let payload = payload_bytes(node.kind);
    lemma_holds_at_split(bytes, at as int, tag, digest + payload);
    lemma_holds_at_split(bytes, (at + 1) as int, digest, payload);
    lemma_word_bytes_len(node.digest);
    lemma_word_round_trip(bytes, at + 1, node.digest);
    lemma_kind_round_trip(bytes, at + 33, node);
    assert(bytes.subrange(at as int, (at + 1) as int)[0] == kind_tag(node.kind));
}

proof fn lemma_nodes_round_trip(
    bytes: Seq<u8>,
    at: nat,
    ids: Seq<u32>,
    nodes: Seq<NodeModel>,
    k: nat,
)
    requires
        bytes.len() <= usize::MAX,
        k <= ids.len() == nodes.len(),
        increasing(ids),
        in_range(ids),
        forall|i: int| 0 <= i < nodes.len() ==> node_writable(#[trigger] nodes[i]),
        holds_at(bytes, at as int, nodes_bytes(ids, nodes, k)),
    ensures
        nodes_at(bytes, at, k) == Ok::<(Seq<u32>, Seq<NodeModel>, nat), DeserializationError>(
            (ids.take(k as int), nodes.take(k as int), at + nodes_bytes(ids, nodes, k).len()),
        ),
    decreases k,
{
    if k > 0 {
        let j = k - 1;
        let front = nodes_bytes(ids, nodes, j as nat);
        let id = id_bytes(ids[j]);
        let node = node_bytes(nodes[j]);
        lemma_holds_at_split(bytes, at as int, front, id + node);
        lemma_holds_at_split(bytes, (at + front.len()) as int, id, node);
        lemma_nodes_round_trip(bytes, at, ids, nodes, j as nat);
        lemma_id_round_trip(bytes, at + front.len(), ids[j]);
        assert(node_writable(nodes[j]));
        lemma_node_round_trip(bytes, at + front.len() + 4, nodes[j]);
        assert(ids.take(j).push(ids[j]) =~= ids.take(k as int));
        assert(nodes.take(j).push(nodes[j]) =~= nodes.take(k as int));
        if j > 0 {
            assert(ids.take(j).last() == ids[j - 1]);
        }
        assert(ids[j] < MAX_NODES);
    } else {
        assert(ids.take(0) =~= Seq::empty());
        assert(nodes.take(0) =~= Seq::empty());
    }
}

proof fn lemma_words_round_trip(bytes: Seq<u8>, at: nat, ids: Seq<u32>, words: Seq<Word>, k: nat)
    requires
        bytes.len() <= usize::MAX,
        k <= ids.len() == words.len(),
        increasing(ids),
        in_range(ids),
        forall|i: int| 0 <= i < words.len() ==> (#[trigger] words[i]).wf(),
        holds_at(bytes, at as int, words_bytes(ids, words, k)),
    ensures
        words_at(bytes, at, k) == Ok::<(Seq<u32>, Seq<Word>, nat), DeserializationError>(
            (ids.take(k as int), words.take(k as int), at + words_bytes(ids, words, k).len()),
        ),
    decreases k,
{
    if k > 0 {
        let j = k - 1;
        let front = words_bytes(ids, words, j as nat);
        let id = id_bytes(ids[j]);
        let word = word_bytes(words[j]);
        lemma_holds_at_split(bytes, at as int, front, id + word);
        lemma_holds_at_split(bytes, (at + front.len()) as int, id, word);
        lemma_words_round_trip(bytes, at, ids, words, j as nat);
        lemma_id_round_trip(bytes, at + front.len(), ids[j]);
        assert(words[j].wf());
        lemma_word_bytes_len(words[j]);
        lemma_word_round_trip(bytes, at + front.len() + 4, words[j]);
        assert(ids.take(j).push(ids[j]) =~= ids.take(k as int));
        assert(words.take(j).push(words[j]) =~= words.take(k as int));
        if j > 0 {
            assert(ids.take(j).last() == ids[j - 1]);
        }
        assert(ids[j] < MAX_NODES);
    } else {
        assert(ids.take(0) =~= Seq::empty());
        assert(words.take(0) =~= Seq::empty());
    }
}

/// No list with ids in order and in range is longer than a forest.
proof fn lemma_increasing_len(ids: Seq<u32>, k: nat)
    requires
        increasing(ids),
        in_range(ids),
        k <= ids.len(),
    ensures
        k > 0 ==> ids[k - 1] >= k - 1,
        k <= MAX_NODES,
    decreases k,
{
    if k > 0 {
        lemma_increasing_len(ids, (k - 1) as nat);
        if k > 1 {
            assert(ids[k - 2] < ids[k - 1]);
        }
        assert(ids[k - 1] < MAX_NODES);
    }
}

proof fn lemma_digests_read(bytes: Seq<u8>, m: SparseModel, at: nat)
    requires
        m.wf(),
        sparse_writable(m),
        bytes.len() <= usize::MAX,
        ({
            let d = m.digest_ids.len();
            let words = words_bytes(m.digest_ids, m.digests, d);
            let behind = at + count_bytes(d).len() + words.len();
            &&& holds_at(bytes, at as int, count_bytes(d))
            &&& holds_at(bytes, (at + count_bytes(d).len()) as int, words)
            &&& holds_at(bytes, behind as int, count_bytes(0))
            &&& bytes.len() == behind + count_bytes(0).len()
        }),
    ensures
        digests_at(bytes, m.roots, m.full_ids, m.nodes, at) == Ok::<
            SparseModel,
            DeserializationError,
        >(m),
{
    let d = m.digest_ids.len();
    let start = at + count_bytes(d).len();
    lemma_increasing_len(m.digest_ids, d);
    law_count_round_trip(bytes, at, d);
    lemma_count_bytes_len(d);
    lemma_words_round_trip(bytes, start, m.digest_ids, m.digests, d);
    let behind = start + words_bytes(m.digest_ids, m.digests, d).len();
    law_count_round_trip(bytes, behind, 0);
    lemma_count_bytes_len(0);
    assert(m.digest_ids.take(d as int) =~= m.digest_ids);
    assert(m.digests.take(d as int) =~= m.digests);
}

proof fn lemma_fulls_read(bytes: Seq<u8>, m: SparseModel, at: nat)
    requires
        m.wf(),
        sparse_writable(m),
        bytes.len() <= usize::MAX,
        ({
            let n = m.full_ids.len();
            let nodes = nodes_bytes(m.full_ids, m.nodes, n);
            let behind = at + count_bytes(n).len() + nodes.len();
            &&& holds_at(bytes, at as int, count_bytes(n))
            &&& holds_at(bytes, (at + count_bytes(n).len()) as int, nodes)
            &&& digests_at(bytes, m.roots, m.full_ids, m.nodes, behind) == Ok::<
                SparseModel,
                DeserializationError,
            >(m)
        }),
    ensures
        fulls_at(bytes, m.roots, at) == Ok::<SparseModel, DeserializationError>(m),
{
    let n = m.full_ids.len();
    let start = at + count_bytes(n).len();
    lemma_increasing_len(m.full_ids, n);
    law_count_round_trip(bytes, at, n);
    lemma_count_bytes_len(n);
    lemma_nodes_round_trip(bytes, start, m.full_ids, m.nodes, n);
    assert(m.full_ids.take(n as int) =~= m.full_ids);
    assert(m.nodes.take(n as int) =~= m.nodes);
}

proof fn lemma_roots_read(bytes: Seq<u8>, m: SparseModel)
    requires
        m.wf(),
        sparse_writable(m),
        bytes.len() <= usize::MAX,
        ({
            let head = count_bytes(m.roots.len());
            let roots = roots_bytes(m.roots);
            &&& holds_at(bytes, 0, head)
            &&& holds_at(bytes, head.len() as int, roots)
            &&& fulls_at(bytes, m.roots, head.len() + roots.len()) == Ok::<
                SparseModel,
                DeserializationError,
            >(m)
        }),
    ensures
        sparse_at(bytes) == Ok::<SparseModel, DeserializationError>(m),
{
    let r = m.roots.len();
    law_count_round_trip(bytes, 0, r);
    lemma_count_bytes_len(r);
    lemma_roots_round_trip(bytes, count_bytes(r).len(), m.roots);
}

/// Reading a sparse forest that was written gives it back: the nodes, the digests and the roots,
/// under their ids.
pub proof fn law_sparse_round_trip(m: SparseModel)
    requires
        m.wf(),
        sparse_writable(m),
        sparse_bytes(m).len() <= usize::MAX,
    ensures
        sparse_at(sparse_bytes(m)) == Ok::<SparseModel, DeserializationError>(m),
{
    let bytes = sparse_bytes(m);
    let n = m.full_ids.len();
    let d = m.digest_ids.len();
    let p1 = count_bytes(m.roots.len());
    let p2 = roots_bytes(m.roots);
    let p3 = count_bytes(n);
    let p4 = nodes_bytes(m.full_ids, m.nodes, n);
    let p5 = count_bytes(d);
    let p6 = words_bytes(m.digest_ids, m.digests, d);
    lemma_seven_held(p1, p2, p3, p4, p5, p6, count_bytes(0));
    let a2 = p1.len() + p2.len();
    let a4 = a2 + p3.len() + p4.len();
    lemma_digests_read(bytes, m, a4);
    lemma_fulls_read(bytes, m, a2);
    lemma_roots_read(bytes, m);
}

/// A sparse forest whose full nodes have their children has no fault.
pub proof fn law_complete_without_fault(m: SparseModel, fault: SparseFault)
    requires
        m.wf(),
        m.complete(),
    ensures
        !m.has_fault(fault),
{
    match fault {
        SparseFault::Overlap { id } => {
            if m.full_ids.contains(id) {
                let i = choose|i: int| 0 <= i < m.full_ids.len() && m.full_ids[i] == id;
                assert(!m.digest_ids.contains(m.full_ids[i]));
            }
        },
        SparseFault::MissingChild { node, child } => {
            if m.has_fault(fault) {
                let i = choose|i: int|
                    0 <= i < m.nodes.len() && #[trigger] m.full_ids[i] == node
                        && m.nodes[i].kind.children().contains(MastNodeId(child));
                let kids = m.nodes[i].kind.children();
                let c = choose|c: int| 0 <= c < kids.len() && kids[c] == MastNodeId(child);
                assert(m.knows(m.nodes[i].kind.children()[c].0));
            }
        },
        _ => {},
    }
}

proof fn lemma_visited_contains(visits: Seq<Option<VisitKind>>, kind: VisitKind, k: nat, id: u32)
    requires
        k <= visits.len() <= u32::MAX,
    ensures
        visited(visits, kind, k).contains(id) <==> id < k && visits[id as int] == Some(kind),
    decreases k,
{
    if k > 0 {
        lemma_visited_contains(visits, kind, (k - 1) as nat, id);
        let front = visited(visits, kind, (k - 1) as nat);
        if visits[k - 1] == Some(kind) {
            let all = front.push((k - 1) as u32);
            assert(all[front.len() as int] == k - 1);
            if front.contains(id) {
                assert(all[front.index_of(id)] == id);
            }
            if all.contains(id) && id != k - 1 {
                assert(front[all.index_of(id)] == id);
            }
        }
    }
}

/// A sparse forest holds what was visited under the ids of the whole forest: a node that was visited
/// in full as it is, a node of which only the digest was asked for by its digest, and no other.
pub proof fn law_sparse_forests_hold_what_was_visited(
    nodes: Seq<NodeModel>,
    roots: Seq<MastNodeId>,
    visits: Seq<Option<VisitKind>>,
    id: u32,
)
    requires
        visits.len() == nodes.len() <= MAX_NODES,
    ensures
        ({
            let m = sparse_of(nodes, roots, visits, visits.len());
            &&& m.full_ids.contains(id) <==> id < nodes.len() && visits[id as int] == Some(
                VisitKind::FullVisit,
            )
            &&& m.digest_ids.contains(id) <==> id < nodes.len() && visits[id as int] == Some(
                VisitKind::DigestOnly,
            )
            &&& forall|i: int|
                0 <= i < m.full_ids.len() ==> m.nodes[i] == nodes[(#[trigger] m.full_ids[i]) as int]
            &&& forall|i: int|
                0 <= i < m.digest_ids.len() ==> m.digests[i] == nodes[(
                #[trigger] m.digest_ids[i]) as int].digest
            &&& m.nodes.len() == m.full_ids.len()
            &&& m.digests.len() == m.digest_ids.len()
            &&& m.roots == roots
        }),
{
    lemma_visited_contains(visits, VisitKind::FullVisit, visits.len(), id);
    lemma_visited_contains(visits, VisitKind::DigestOnly, visits.len(), id);
}

} // verus!
