//! Reading serialized forests: in full, or by random access.

use vstd::prelude::*;

use crate::batch::assembled;
use crate::block::{
    batches_of, block_at, indptr_of, lemma_indptr_of, ops_at, read_block_at, writable,
};
use crate::bytes::{
    le_integer, le_value, lemma_le_value_bound, lemma_pow256_values, read_slice_at, slice_at,
};
use crate::error::{DeserializationError, InvalidValue};
use crate::felt::Word;
use crate::forest::{
    bare_entries, check_place, dense, digests_of, late_child, lemma_no_fault, lemma_order_fault,
    order_fault, AdviceMap, AdviceModel, ForestModel, MastForest,
};
use crate::layout::{
    advice_at, layout_at, layout_inside, read_advice_map, read_header_and_scan_layout, read_word_at,
    refused, word_at, ForestLayout,
};
use crate::node::{
    children_below, compute_digest, digest_in, entry_of, node_models, unpack_entry, unpacked,
    KindModel, MastNode, MastNodeEntry, MastNodeId, NodeKind, NodeModel,
};
use crate::operation::Operation;

verus! {

// MODEL
// ================================================================================================

/// The entry of node `i`.
pub open spec fn entry_at(bytes: Seq<u8>, layout: ForestLayout, i: nat) -> Result<
    MastNodeEntry,
    DeserializationError,
> {
    if i >= layout.node_count {
        refused(InvalidValue::NodeIndexOutOfBounds { index: i as usize })
    } else {
        match slice_at(bytes, layout.entry_offset as nat + 8 * i, 8) {
            Err(e) => Err(e),
            Ok(s) => match unpacked(le_value(s) as u64) {
                Err(e) => refused(e),
                Ok(entry) => Ok(entry),
            },
        }
    }
}

/// The entries of the first `k` nodes.
pub open spec fn entries_upto(bytes: Seq<u8>, layout: ForestLayout, k: nat) -> Result<
    Seq<MastNodeEntry>,
    DeserializationError,
>
    decreases k,
{
    if k == 0 {
        Ok(Seq::empty())
    } else {
        match entries_upto(bytes, layout, (k - 1) as nat) {
            Err(e) => Err(e),
            Ok(entries) => match entry_at(bytes, layout, (k - 1) as nat) {
                Err(e) => Err(e),
                Ok(entry) => Ok(entries.push(entry)),
            },
        }
    }
}

/// Number of external nodes among the first `k` entries.
pub open spec fn external_entries(entries: Seq<MastNodeEntry>, k: nat) -> nat
    decreases k,
{
    if k == 0 {
        0
    } else {
        external_entries(entries, (k - 1) as nat) + if entries[k - 1] is External {
            1nat
        } else {
            0nat
        }
    }
}

/// The slot of the digest of node `i` in its section: how many nodes of its class come before it.
pub open spec fn digest_slot(entries: Seq<MastNodeEntry>, i: int) -> int {
    if entries[i] is External {
        external_entries(entries, i as nat) as int
    } else {
        i - external_entries(entries, i as nat)
    }
}

/// The first `k` digests of external nodes.
pub open spec fn externals_upto(bytes: Seq<u8>, layout: ForestLayout, k: nat) -> Result<
    Seq<Word>,
    DeserializationError,
>
    decreases k,
{
    if k == 0 {
        Ok(Seq::empty())
    } else {
        match externals_upto(bytes, layout, (k - 1) as nat) {
            Err(e) => Err(e),
            Ok(words) => match word_at(bytes, (layout.external_offset + 32 * (k - 1)) as nat) {
                Err(e) => Err(e),
                Ok(word) => Ok(words.push(word)),
            },
        }
    }
}

/// The entries and the external digests of a payload whose header counts its external nodes
/// right.
pub open spec fn resolved(bytes: Seq<u8>, layout: ForestLayout) -> Result<
    (Seq<MastNodeEntry>, Seq<Word>),
    DeserializationError,
> {
    match entries_upto(bytes, layout, layout.node_count as nat) {
        Err(e) => Err(e),
        Ok(entries) => {
            let found = external_entries(entries, entries.len());
            if found != layout.external_count {
                refused(
                    InvalidValue::ExternalCountMismatch {
                        header: layout.external_count,
                        entries: found as usize,
                    },
                )
            } else {
                match externals_upto(bytes, layout, layout.external_count as nat) {
                    Err(e) => Err(e),
                    Ok(externals) => Ok((entries, externals)),
                }
            }
        },
    }
}

/// The digests of the external nodes by node.
pub open spec fn placed_digests(entries: Seq<MastNodeEntry>, externals: Seq<Word>) -> Seq<Word> {
    Seq::new(
        entries.len(),
        |i: int|
            if entries[i] is External {
                externals[digest_slot(entries, i)]
            } else {
                Word::zero_spec()
            },
    )
}

/// The entries and external digests of a payload in dense order.
pub open spec fn ordered(bytes: Seq<u8>, layout: ForestLayout) -> Result<
    (Seq<MastNodeEntry>, Seq<Word>),
    DeserializationError,
> {
    match resolved(bytes, layout) {
        Err(e) => Err(e),
        Ok((entries, externals)) => match order_fault(
            entries,
            placed_digests(entries, externals),
            entries.len(),
        ) {
            Some(e) => refused(e),
            None => Ok((entries, externals)),
        },
    }
}

/// What the node of an entry executes.
pub open spec fn kind_at(bytes: Seq<u8>, layout: ForestLayout, entry: MastNodeEntry) -> Result<
    KindModel,
    DeserializationError,
> {
    match entry {
        MastNodeEntry::Join { left, right } => Ok(
            KindModel::Join(MastNodeId(left), MastNodeId(right)),
        ),
        MastNodeEntry::Split { on_true, on_false } => Ok(
            KindModel::Split(MastNodeId(on_true), MastNodeId(on_false)),
        ),
        MastNodeEntry::Loop { body } => Ok(KindModel::Loop(MastNodeId(body))),
        MastNodeEntry::Call { callee } => Ok(KindModel::Call(MastNodeId(callee))),
        MastNodeEntry::SysCall { callee } => Ok(KindModel::SysCall(MastNodeId(callee))),
        MastNodeEntry::Dyn => Ok(KindModel::Dyn),
        MastNodeEntry::Dyncall => Ok(KindModel::Dyncall),
        MastNodeEntry::External => Ok(KindModel::External),
        MastNodeEntry::Block { ops_offset } => if ops_offset >= layout.data_len {
            refused(InvalidValue::BlockOffsetOutOfBounds { offset: ops_offset })
        } else {
            match block_at(
                bytes.subrange(layout.data_offset as int, layout.data_offset + layout.data_len),
                ops_offset as nat,
            ) {
                Err(e) => Err(e),
                Ok(batches) => Ok(KindModel::Block(batches)),
            }
        },
    }
}

/// The digest of node `i`: from the external section, from the hash section, or computed where
/// the payload is hashless.
pub open spec fn digest_at(
    bytes: Seq<u8>,
    layout: ForestLayout,
    entries: Seq<MastNodeEntry>,
    externals: Seq<Word>,
    nodes: Seq<NodeModel>,
    kind: KindModel,
    i: int,
) -> Result<Word, DeserializationError> {
    if entries[i] is External {
        Ok(externals[digest_slot(entries, i)])
    } else if layout.hashless {
        Ok(digest_in(nodes, kind, Word::zero_spec()))
    } else {
        word_at(bytes, (layout.hash_offset + 32 * digest_slot(entries, i)) as nat)
    }
}

/// The first `k` nodes.
pub open spec fn nodes_upto(
    bytes: Seq<u8>,
    layout: ForestLayout,
    entries: Seq<MastNodeEntry>,
    externals: Seq<Word>,
    k: nat,
) -> Result<Seq<NodeModel>, DeserializationError>
    decreases k,
{
    if k == 0 {
        Ok(Seq::empty())
    } else {
        match nodes_upto(bytes, layout, entries, externals, (k - 1) as nat) {
            Err(e) => Err(e),
            Ok(nodes) => match kind_at(bytes, layout, entries[k - 1]) {
                Err(e) => Err(e),
                Ok(kind) => match digest_at(
                    bytes,
                    layout,
                    entries,
                    externals,
                    nodes,
                    kind,
                    k - 1,
                ) {
                    Err(e) => Err(e),
                    Ok(digest) => Ok(nodes.push(NodeModel { kind, digest })),
                },
            },
        }
    }
}

/// Root `i` of a payload.
pub open spec fn root_at(bytes: Seq<u8>, layout: ForestLayout, i: nat) -> Result<
    MastNodeId,
    DeserializationError,
> {
    if i >= layout.roots_count {
        refused(
            InvalidValue::RootIndexOutOfBounds { index: i as usize, count: layout.roots_count },
        )
    } else {
        match slice_at(bytes, layout.roots_offset as nat + 4 * i, 4) {
            Err(e) => Err(e),
            Ok(s) => {
                let root = le_value(s) as u32;
                if root >= layout.node_count {
                    refused(InvalidValue::RootOutOfBounds { root, count: layout.node_count })
                } else {
                    Ok(MastNodeId(root))
                }
            },
        }
    }
}

/// The first `k` roots.
pub open spec fn roots_upto(bytes: Seq<u8>, layout: ForestLayout, k: nat) -> Result<
    Seq<MastNodeId>,
    DeserializationError,
>
    decreases k,
{
    if k == 0 {
        Ok(Seq::empty())
    } else {
        match roots_upto(bytes, layout, (k - 1) as nat) {
            Err(e) => Err(e),
            Ok(roots) => match root_at(bytes, layout, (k - 1) as nat) {
                Err(e) => Err(e),
                Ok(root) => Ok(roots.push(root)),
            },
        }
    }
}

/// The forest of a payload, given its advice map.
pub open spec fn materialized(
    bytes: Seq<u8>,
    layout: ForestLayout,
    advice_map: AdviceModel,
) -> Result<ForestModel, DeserializationError> {
    match ordered(bytes, layout) {
        Err(e) => Err(e),
        Ok((entries, externals)) => match roots_upto(bytes, layout, layout.roots_count as nat) {
            Err(e) => Err(e),
            Ok(roots) => match nodes_upto(
                bytes,
                layout,
                entries,
                externals,
                layout.node_count as nat,
            ) {
                Err(e) => Err(e),
                Ok(nodes) => Ok(ForestModel { nodes, roots, advice_map }),
            },
        },
    }
}

/// The layout and the advice map of a payload, and the offset behind the advice map.
pub open spec fn decoded(bytes: Seq<u8>, limit: Option<usize>, allow_hashless: bool) -> Result<
    (ForestLayout, AdviceModel, nat),
    DeserializationError,
> {
    match layout_at(bytes, limit, allow_hashless) {
        Err(e) => Err(e),
        Ok(layout) => match advice_at(bytes, limit, layout.advice_offset as nat) {
            Err(e) => Err(e),
            Ok((advice_map, end)) => Ok((layout, advice_map, end)),
        },
    }
}

/// Multiplier of the read budget of trusted payloads.
pub const TRUSTED_BYTE_READ_BUDGET_MULTIPLIER: usize = 64;

/// `a * b`, or the largest value that fits.
pub open spec fn saturating_product(a: nat, b: nat) -> nat {
    if a * b > usize::MAX {
        usize::MAX as nat
    } else {
        a * b
    }
}

pub open spec fn trusted_limit(len: nat) -> Option<usize> {
    Some(saturating_product(len, 64) as usize)
}

/// The forest of a trusted payload: complete, in dense order, with nothing behind it.
pub open spec fn trusted(bytes: Seq<u8>) -> Result<ForestModel, DeserializationError> {
    match decoded(bytes, trusted_limit(bytes.len()), false) {
        Err(e) => Err(e),
        Ok((layout, advice_map, end)) => match materialized(bytes, layout, advice_map) {
            Err(e) => Err(e),
            Ok(forest) => if end < bytes.len() {
                refused(InvalidValue::TrailingBytes)
            } else {
                Ok(forest)
            },
        },
    }
}

// LEMMAS
// ================================================================================================

pub proof fn lemma_entries_error(bytes: Seq<u8>, layout: ForestLayout, k: nat, n: nat)
    requires
        k <= n,
        entries_upto(bytes, layout, k) is Err,
    ensures
        entries_upto(bytes, layout, n) == entries_upto(bytes, layout, k),
    decreases n - k,
{
    if k < n {
        lemma_entries_error(bytes, layout, k, (n - 1) as nat);
    }
}

pub proof fn lemma_externals_error(bytes: Seq<u8>, layout: ForestLayout, k: nat, n: nat)
    requires
        k <= n,
        externals_upto(bytes, layout, k) is Err,
    ensures
        externals_upto(bytes, layout, n) == externals_upto(bytes, layout, k),
    decreases n - k,
{
    if k < n {
        lemma_externals_error(bytes, layout, k, (n - 1) as nat);
    }
}

pub proof fn lemma_roots_error(bytes: Seq<u8>, layout: ForestLayout, k: nat, n: nat)
    requires
        k <= n,
        roots_upto(bytes, layout, k) is Err,
    ensures
        roots_upto(bytes, layout, n) == roots_upto(bytes, layout, k),
    decreases n - k,
{
    if k < n {
        lemma_roots_error(bytes, layout, k, (n - 1) as nat);
    }
}

pub proof fn lemma_nodes_error(
    bytes: Seq<u8>,
    layout: ForestLayout,
    entries: Seq<MastNodeEntry>,
    externals: Seq<Word>,
    k: nat,
    n: nat,
)
    requires
        k <= n,
        nodes_upto(bytes, layout, entries, externals, k) is Err,
    ensures
        nodes_upto(bytes, layout, entries, externals, n) == nodes_upto(
            bytes,
            layout,
            entries,
            externals,
            k,
        ),
    decreases n - k,
{
    if k < n {
        lemma_nodes_error(bytes, layout, entries, externals, k, (n - 1) as nat);
    }
}

pub proof fn lemma_external_entries(entries: Seq<MastNodeEntry>, i: nat, k: nat)
    requires
        i <= k,
    ensures
        external_entries(entries, i) <= external_entries(entries, k),
        external_entries(entries, k) - external_entries(entries, i) <= k - i,
    decreases k,
{
    if i < k {
        lemma_external_entries(entries, i, (k - 1) as nat);
    }
}

/// Counting reads nothing but the first `k` entries.
pub proof fn lemma_external_entries_prefix(entries: Seq<MastNodeEntry>, k: nat, m: nat)
    requires
        k <= m <= entries.len(),
    ensures
        external_entries(entries.take(m as int), k) == external_entries(entries, k),
    decreases k,
{
    if k > 0 {
        lemma_external_entries_prefix(entries, (k - 1) as nat, m);
    }
}

/// Operations that were read are well formed.
pub proof fn lemma_read_ops_wf(bytes: Seq<u8>, at: nat, n: nat)
    ensures
        ops_at(bytes, at, n) is Ok ==> forall|i: int|
            0 <= i < ops_at(bytes, at, n)->Ok_0.0.len() ==> (#[trigger] ops_at(
                bytes,
                at,
                n,
            )->Ok_0.0[i]).wf(),
    decreases n,
{
    if n > 0 {
        lemma_read_ops_wf(bytes, at, (n - 1) as nat);
        reveal(crate::operation::operation_at);
        reveal(crate::operation::plain_operation);
        if ops_at(bytes, at, n) is Ok {
            let (front, end) = ops_at(bytes, at, (n - 1) as nat)->Ok_0;
            let (op, len) = crate::operation::operation_at(bytes, end)->Ok_0;
            assert(op.wf());
            let all = ops_at(bytes, at, n)->Ok_0.0;
            assert(all == front.push(op));
            assert forall|i: int| 0 <= i < all.len() implies (#[trigger] all[i]).wf() by {
                if i < front.len() {
                    assert(all[i] == front[i]);
                }
            }
        }
    }
}

/// Batches that were read are well formed.
pub proof fn lemma_read_batches_wf(
    ops: Seq<Operation>,
    indptrs: Seq<u8>,
    paddings: Seq<u8>,
    k: nat,
)
    requires
        forall|i: int| 0 <= i < ops.len() ==> (#[trigger] ops[i]).wf(),
        indptrs.len() == 4 * paddings.len(),
        k <= paddings.len(),
    ensures
        batches_of(ops, indptrs, paddings, k) is Ok ==> {
            let batches = batches_of(ops, indptrs, paddings, k)->Ok_0.0;
            batches.len() == k && forall|i: int|
                0 <= i < batches.len() ==> (#[trigger] batches[i]).wf()
        },
    decreases k,
{
    if k > 0 {
        lemma_read_batches_wf(ops, indptrs, paddings, (k - 1) as nat);
        if batches_of(ops, indptrs, paddings, k) is Ok {
            let (front, used) = batches_of(ops, indptrs, paddings, (k - 1) as nat)->Ok_0;
            let packed = indptrs.subrange(4 * (k - 1), 4 * k as int);
            lemma_indptr_of(packed);
            let indptr = indptr_of(packed);
            let part = ops.subrange(used as int, used + indptr[8]);
            let padding = crate::block::padding_of(paddings[k - 1]);
            reveal(assembled);
            let batch = assembled(part, indptr, padding)->Ok_0;
            assert(batch.wf()) by {
                assert(forall|i: int| 0 <= i < part.len() ==> (#[trigger] part[i]) == ops[used
                    + i]);
            }
            let all = batches_of(ops, indptrs, paddings, k)->Ok_0.0;
            assert(all == front.push(batch));
            assert forall|i: int| 0 <= i < all.len() implies (#[trigger] all[i]).wf() by {
                if i < front.len() {
                    assert(all[i] == front[i]);
                }
            }
        }
    }
}

/// A block that was read can be written.
pub proof fn lemma_read_block_wf(data: Seq<u8>, at: nat)
    ensures
        block_at(data, at) is Ok ==> writable(block_at(data, at)->Ok_0),
{
    if block_at(data, at) is Ok {
        let (n, len) = crate::bytes::count_at(data, at)->Ok_0;
        lemma_read_ops_wf(data, at + len, n);
        let (ops, end) = ops_at(data, at + len, n)->Ok_0;
        let s = slice_at(data, end, 4)->Ok_0;
        lemma_le_value_bound(s);
        lemma_pow256_values();
        let k = le_value(s);
        let indptrs = slice_at(data, end + 4, 4 * k)->Ok_0;
        let paddings = slice_at(data, end + 4 + 4 * k, k)->Ok_0;
        lemma_read_batches_wf(ops, indptrs, paddings, k);
    }
}

// READERS
// ================================================================================================

/// The entries, external digests and digest slots of a payload.
pub struct ResolvedSerializedForest {
    pub entries: Vec<MastNodeEntry>,
    pub externals: Vec<Word>,
    pub slots: Vec<usize>,
}

impl ResolvedSerializedForest {
    /// `self` holds what the payload says.
    pub open spec fn describes(&self, bytes: Seq<u8>, layout: ForestLayout) -> bool {
        &&& resolved(bytes, layout) == Ok::<(Seq<MastNodeEntry>, Seq<Word>), DeserializationError>(
            (self.entries@, self.externals@),
        )
        &&& self.entries@.len() == layout.node_count
        &&& self.externals@.len() == layout.external_count
        &&& self.slots@.len() == layout.node_count
        &&& forall|i: int|
            0 <= i < self.slots@.len() ==> #[trigger] self.slots@[i] == digest_slot(
                self.entries@,
                i,
            )
        &&& forall|i: int| 0 <= i < self.externals@.len() ==> (#[trigger] self.externals@[i]).wf()
    }

    /// Scans the entries of a payload once.
    pub fn new(bytes: &[u8], layout: ForestLayout) -> (res: Result<
        ResolvedSerializedForest,
        DeserializationError,
    >)
        requires
            layout_inside(layout, bytes@.len()),
        ensures
            match resolved(bytes@, layout) {
                Ok(_) => res is Ok && res->Ok_0.describes(bytes@, layout),
                Err(e) => res is Err && res->Err_0 == e,
            },
    {
        let n: usize = layout.node_count;
        let mut entries: Vec<MastNodeEntry> = Vec::new();
        let mut slots: Vec<usize> = Vec::new();
        let mut external: usize = 0;
        let mut i: usize = 0;
        while i < n
            invariant
                i <= n == layout.node_count,
                layout_inside(layout, bytes@.len()),
                external <= i,
                entries_upto(bytes@, layout, i as nat) == Ok::<
                    Seq<MastNodeEntry>,
                    DeserializationError,
                >(entries@),
                entries@.len() == i,
                slots@.len() == i,
                external == external_entries(entries@, i as nat),
                forall|j: int|
                    0 <= j < i ==> #[trigger] slots@[j] == digest_slot(entries@, j),
            decreases n - i,
        {
            match read_node_entry_at(bytes, layout, i) {
                Err(e) => {
                    proof {
                        lemma_entries_error(bytes@, layout, (i + 1) as nat, n as nat);
                    }
                    return Err(e);
                },
                Ok(entry) => {
                    let is_external = match entry {
                        MastNodeEntry::External => true,
                        _ => false,
                    };
                    let ghost before = entries@;
                    entries.push(entry);
                    proof {
                        assert(entries@.take(i as int) =~= before);
                        lemma_external_entries_prefix(entries@, i as nat, i as nat);
                    }
                    if is_external {
                        slots.push(external);
                        external = external + 1;
                    } else {
                        slots.push(i - external);
                    }
                    assert forall|j: int| 0 <= j <= i implies #[trigger] slots@[j] == digest_slot(
                        entries@,
                        j,
                    ) by {
                        lemma_external_entries_prefix(entries@, j as nat, i as nat);
                    }
                },
            }
            i += 1;
        }
        if external != layout.external_count {
            return Err(
                DeserializationError::InvalidValue(
                    InvalidValue::ExternalCountMismatch {
                        header: layout.external_count,
                        entries: external,
                    },
                ),
            );
        }
        let mut externals: Vec<Word> = Vec::new();
        let mut offset: usize = layout.external_offset;
        let mut i: usize = 0;
        while i < external
            invariant
                i <= external == layout.external_count,
                layout_inside(layout, bytes@.len()),
                offset == layout.external_offset + 32 * i,
                resolved(bytes@, layout) == (match externals_upto(
                    bytes@,
                    layout,
                    external as nat,
                ) {
                    Err(e) => Err::<(Seq<MastNodeEntry>, Seq<Word>), DeserializationError>(e),
                    Ok(externals) => Ok((entries@, externals)),
                }),
                externals_upto(bytes@, layout, i as nat) == Ok::<Seq<Word>, DeserializationError>(
                    externals@,
                ),
                externals@.len() == i,
                forall|i: int| 0 <= i < externals@.len() ==> (#[trigger] externals@[i]).wf(),
            decreases external - i,
        {
            match read_word_at(bytes, &mut offset) {
                Ok(word) => externals.push(word),
                Err(e) => {
                    proof {
                        lemma_externals_error(bytes@, layout, (i + 1) as nat, external as nat);
                    }
                    return Err(e);
                },
            }
            i += 1;
        }
        Ok(ResolvedSerializedForest { entries, externals, slots })
    }

    /// Checks that the nodes are in dense order.
    pub fn validate_dense_node_order(&self, bytes: &[u8], layout: ForestLayout) -> (res: Result<
        (),
        DeserializationError,
    >)
        requires
            self.describes(bytes@, layout),
        ensures
            match ordered(bytes@, layout) {
                Ok(_) => res is Ok,
                Err(e) => res == Err::<(), DeserializationError>(e),
            },
    {
        let ghost digests = placed_digests(self.entries@, self.externals@);
        let n: usize = self.entries.len();
        let mut previous: Option<MastNodeEntry> = None;
        let mut previous_digest = Word::default();
        let mut i: usize = 0;
        while i < n
            invariant
                i <= n == self.entries@.len(),
                self.describes(bytes@, layout),
                digests == placed_digests(self.entries@, self.externals@),
                previous is None <==> i == 0,
                i > 0 ==> previous == Some(self.entries@[i - 1]) && (self.entries@[i
                    - 1] is External ==> previous_digest == digests[i - 1]),
                order_fault(self.entries@, digests, i as nat) is None,
            decreases n - i,
        {
            let entry = self.entries[i];
            let mut digest = Word::default();
            if let MastNodeEntry::External = entry {
                proof {
                    lemma_external_entries(self.entries@, (i + 1) as nat, n as nat);
                }
                assert(self.slots@[i as int] == digest_slot(self.entries@, i as int));
                digest = self.externals[self.slots[i]];
            }
            assert(self.entries@.len() > i && digests.len() == self.entries@.len());
            if let Some(e) = check_place(i, previous, entry, previous_digest, digest) {
                proof {
                    lemma_order_fault(self.entries@, digests, (i + 1) as nat, n as nat);
                }
                return Err(DeserializationError::InvalidValue(e));
            }
            previous = Some(entry);
            previous_digest = digest;
            i += 1;
        }
        Ok(())
    }

    /// The digest of node `index` of a payload that holds all digests.
    pub fn node_digest_at(&self, bytes: &[u8], layout: ForestLayout, index: usize) -> (res: Result<
        Word,
        DeserializationError,
    >)
        requires
            self.describes(bytes@, layout),
            layout_inside(layout, bytes@.len()),
            !layout.hashless,
        ensures
            index >= layout.node_count ==> res == refused::<Word>(
                InvalidValue::NodeIndexOutOfBounds { index },
            ),
            index < layout.node_count ==> res == if self.entries@[index as int] is External {
                Ok::<Word, DeserializationError>(
                    self.externals@[digest_slot(self.entries@, index as int)],
                )
            } else {
                word_at(
                    bytes@,
                    (layout.hash_offset + 32 * digest_slot(self.entries@, index as int)) as nat,
                )
            },
            res is Ok ==> res->Ok_0.wf(),
    {
        if index >= self.entries.len() {
            return Err(
                DeserializationError::InvalidValue(InvalidValue::NodeIndexOutOfBounds { index }),
            );
        }
        let slot: usize = self.slots[index];
        proof {
            assert(self.slots@[index as int] == digest_slot(self.entries@, index as int));
            lemma_external_entries(
                self.entries@,
                (index + 1) as nat,
                self.entries@.len(),
            );
            lemma_external_entries(self.entries@, 0, index as nat);
        }
        match self.entries[index] {
            MastNodeEntry::External => Ok(self.externals[slot]),
            _ => {
                assert(slot < layout.internal_count);
                let mut offset: usize = layout.hash_offset + 32 * slot;
                read_word_at(bytes, &mut offset)
            },
        }
    }
}

/// Reads the entry of node `index`.
pub fn read_node_entry_at(bytes: &[u8], layout: ForestLayout, index: usize) -> (res: Result<
    MastNodeEntry,
    DeserializationError,
>)
    requires
        layout_inside(layout, bytes@.len()),
    ensures
        res == entry_at(bytes@, layout, index as nat),
        res is Ok ==> res->Ok_0.wf(),
{
    if index >= layout.node_count {
        return Err(
            DeserializationError::InvalidValue(InvalidValue::NodeIndexOutOfBounds { index }),
        );
    }
    let _len: usize = bytes.len();
    let mut offset: usize = layout.entry_offset + 8 * index;
    match read_slice_at(bytes, &mut offset, 8) {
        Err(e) => Err(e),
        Ok(s) => match unpack_entry(le_integer(s)) {
            Ok(entry) => Ok(entry),
            Err(e) => Err(DeserializationError::InvalidValue(e)),
        },
    }
}

/// Reads root `index`.
pub fn read_procedure_root_at(bytes: &[u8], layout: ForestLayout, index: usize) -> (res: Result<
    MastNodeId,
    DeserializationError,
>)
    requires
        layout_inside(layout, bytes@.len()),
    ensures
        res == root_at(bytes@, layout, index as nat),
{
    if index >= layout.roots_count {
        return Err(
            DeserializationError::InvalidValue(
                InvalidValue::RootIndexOutOfBounds { index, count: layout.roots_count },
            ),
        );
    }
    let _len: usize = bytes.len();
    let mut offset: usize = layout.roots_offset + 4 * index;
    match read_slice_at(bytes, &mut offset, 4) {
        Err(e) => Err(e),
        Ok(s) => {
            proof {
                lemma_le_value_bound(s@);
                lemma_pow256_values();
            }
            let root: u32 = le_integer(s) as u32;
            if root as usize >= layout.node_count {
                Err(
                    DeserializationError::InvalidValue(
                        InvalidValue::RootOutOfBounds { root, count: layout.node_count },
                    ),
                )
            } else {
                Ok(MastNodeId(root))
            }
        },
    }
}

fn read_kind(bytes: &[u8], layout: ForestLayout, entry: MastNodeEntry) -> (res: Result<
    NodeKind,
    DeserializationError,
>)
    requires
        layout_inside(layout, bytes@.len()),
    ensures
        match kind_at(bytes@, layout, entry) {
            Ok(kind) => res is Ok && res->Ok_0@ == kind,
            Err(e) => res is Err && res->Err_0 == e,
        },
{
    match entry {
        MastNodeEntry::Join { left, right } => Ok(
            NodeKind::Join(MastNodeId(left), MastNodeId(right)),
        ),
        MastNodeEntry::Split { on_true, on_false } => Ok(
            NodeKind::Split(MastNodeId(on_true), MastNodeId(on_false)),
        ),
        MastNodeEntry::Loop { body } => Ok(NodeKind::Loop(MastNodeId(body))),
        MastNodeEntry::Call { callee } => Ok(NodeKind::Call(MastNodeId(callee))),
        MastNodeEntry::SysCall { callee } => Ok(NodeKind::SysCall(MastNodeId(callee))),
        MastNodeEntry::Dyn => Ok(NodeKind::Dyn),
        MastNodeEntry::Dyncall => Ok(NodeKind::Dyncall),
        MastNodeEntry::External => Ok(NodeKind::External),
        MastNodeEntry::Block { ops_offset } => {
            if ops_offset as usize >= layout.data_len {
                return Err(
                    DeserializationError::InvalidValue(
                        InvalidValue::BlockOffsetOutOfBounds { offset: ops_offset },
                    ),
                );
            }
            let data = vstd::slice::slice_subrange(bytes, layout.data_offset, layout.entry_offset);
            match read_block_at(data, ops_offset as usize) {
                Ok(batches) => Ok(NodeKind::Block(batches)),
                Err(e) => Err(e),
            }
        },
    }
}

/// What holds of the nodes that were read so far.
pub open spec fn sound_nodes(nodes: Seq<NodeModel>) -> bool {
    &&& forall|i: int| 0 <= i < nodes.len() ==> (#[trigger] nodes[i]).wf()
    &&& forall|i: int| 0 <= i < nodes.len() ==> children_below((#[trigger] nodes[i]).kind, i)
}

/// Entries describe nodes when they agree with them up to block offsets, and the digests of
/// external nodes are the ones given.
pub open spec fn describe_nodes(
    entries: Seq<MastNodeEntry>,
    digests: Seq<Word>,
    nodes: Seq<NodeModel>,
) -> bool {
    &&& nodes.len() <= entries.len()
    &&& forall|i: int|
        0 <= i < nodes.len() ==> {
            &&& (#[trigger] nodes[i]).kind is Block <==> entries[i] is Block
            &&& !(nodes[i].kind is Block) ==> entries[i] == entry_of(nodes[i].kind, 0)
            &&& nodes[i].kind is External ==> nodes[i].digest == digests[i]
        }
}

/// Nodes are in dense order when the entries that describe them are.
pub proof fn lemma_described_order(
    entries: Seq<MastNodeEntry>,
    digests: Seq<Word>,
    nodes: Seq<NodeModel>,
    k: nat,
)
    requires
        describe_nodes(entries, digests, nodes),
        k <= nodes.len(),
    ensures
        order_fault(entries, digests, k) == order_fault(bare_entries(nodes), digests_of(nodes), k),
    decreases k,
{
    if k > 0 {
        lemma_described_order(entries, digests, nodes, (k - 1) as nat);
        let i = k - 1;
        assert(nodes[i].kind is Block <==> entries[i] is Block);
        if i > 0 {
            assert(nodes[i - 1].kind is Block <==> entries[i - 1] is Block);
        }
    }
}

/// Reads the nodes, roots and digests of a payload.
///
/// Refuses what [`ResolvedSerializedForest::new`] refuses, nodes out of order, roots that are no
/// nodes, and basic blocks that are not well formed.
pub fn materialize(bytes: &[u8], layout: ForestLayout, advice_map: AdviceMap) -> (res: Result<
    MastForest,
    DeserializationError,
>)
    requires
        layout_inside(layout, bytes@.len()),
        advice_map.wf(),
    ensures
        match materialized(bytes@, layout, advice_map@) {
            Ok(forest) => res is Ok && res->Ok_0@ == forest && forest.wf() && dense(forest.nodes),
            Err(e) => res is Err && res->Err_0 == e,
        },
{
    let res = match ResolvedSerializedForest::new(bytes, layout) {
        Ok(res) => res,
        Err(e) => {
            return Err(e);
        },
    };
    if let Err(e) = res.validate_dense_node_order(bytes, layout) {
        return Err(e);
    }
    let ghost entries = res.entries@;
    let ghost externals = res.externals@;
    let ghost digests = placed_digests(entries, externals);
    let mut roots: Vec<MastNodeId> = Vec::new();
    let mut i: usize = 0;
    while i < layout.roots_count
        invariant
            i <= layout.roots_count,
            layout_inside(layout, bytes@.len()),
            ordered(bytes@, layout) == Ok::<(Seq<MastNodeEntry>, Seq<Word>), DeserializationError>(
                (entries, externals),
            ),
            roots_upto(bytes@, layout, i as nat) == Ok::<Seq<MastNodeId>, DeserializationError>(
                roots@,
            ),
            forall|j: int| 0 <= j < roots@.len() ==> (#[trigger] roots@[j]).0 < layout.node_count,
        decreases layout.roots_count - i,
    {
        match read_procedure_root_at(bytes, layout, i) {
            Ok(root) => roots.push(root),
            Err(e) => {
                proof {
                    lemma_roots_error(bytes@, layout, (i + 1) as nat, layout.roots_count as nat);
                }
                return Err(e);
            },
        }
        i += 1;
    }
    let n: usize = layout.node_count;
    let mut nodes: Vec<MastNode> = Vec::new();
    let mut i: usize = 0;
    assert(node_models(nodes@) =~= Seq::<NodeModel>::empty());
    while i < n
        invariant
            i <= n == layout.node_count,
            layout_inside(layout, bytes@.len()),
            res.describes(bytes@, layout),
            entries == res.entries@,
            externals == res.externals@,
            digests == placed_digests(entries, externals),
            ordered(bytes@, layout) == Ok::<(Seq<MastNodeEntry>, Seq<Word>), DeserializationError>(
                (entries, externals),
            ),
            order_fault(entries, digests, n as nat) is None,
            roots_upto(bytes@, layout, layout.roots_count as nat) == Ok::<
                Seq<MastNodeId>,
                DeserializationError,
            >(roots@),
            nodes@.len() == i,
            nodes_upto(bytes@, layout, entries, externals, i as nat) == Ok::<
                Seq<NodeModel>,
                DeserializationError,
            >(node_models(nodes@)),
            sound_nodes(node_models(nodes@)),
            describe_nodes(entries, digests, node_models(nodes@)),
        decreases n - i,
    {
        let ghost before = node_models(nodes@);
        let entry = res.entries[i];
        proof {
            if nodes_upto(bytes@, layout, entries, externals, (i + 1) as nat) is Err {
                lemma_nodes_error(bytes@, layout, entries, externals, (i + 1) as nat, n as nat);
            }
            lemma_no_fault(entries, digests, i as nat, n as nat);
            if let MastNodeEntry::Block { ops_offset } = entry {
                lemma_read_block_wf(
                    bytes@.subrange(
                        layout.data_offset as int,
                        layout.data_offset + layout.data_len,
                    ),
                    ops_offset as nat,
                );
            }
        }
        let kind = match read_kind(bytes, layout, entry) {
            Ok(kind) => kind,
            Err(e) => {
                return Err(e);
            },
        };
        proof {
            lemma_kind_children(bytes@, layout, entry, i as int);
        }
        let is_external = match entry {
            MastNodeEntry::External => true,
            _ => false,
        };
        let digest = if layout.hashless && !is_external {
            compute_digest(&nodes, &kind, Word::default())
        } else if is_external {
            proof {
                lemma_external_entries(entries, (i + 1) as nat, n as nat);
            }
            assert(res.slots@[i as int] == digest_slot(entries, i as int));
            res.externals[res.slots[i]]
        } else {
            match res.node_digest_at(bytes, layout, i) {
                Ok(digest) => digest,
                Err(e) => {
                    return Err(e);
                },
            }
        };
        let ghost model = NodeModel { kind: kind@, digest };
        nodes.push(MastNode { kind, digest });
        proof {
            assert(node_models(nodes@) =~= before.push(model));
            assert forall|j: int| 0 <= j < nodes@.len() implies (#[trigger] node_models(
                nodes@,
            )[j]).wf() && children_below(node_models(nodes@)[j].kind, j) by {
                if j < i {
                    assert(node_models(nodes@)[j] == before[j]);
                }
            }
        }
        i += 1;
    }
    proof {
        lemma_described_order(entries, digests, node_models(nodes@), n as nat);
    }
    Ok(MastForest { nodes, roots, advice_map })
}

/// The children of an entry in order come before its node.
proof fn lemma_kind_children(bytes: Seq<u8>, layout: ForestLayout, entry: MastNodeEntry, i: int)
    ensures
        late_child(entry, i) is None && kind_at(bytes, layout, entry) is Ok ==> children_below(
            kind_at(bytes, layout, entry)->Ok_0,
            i,
        ),
{
}

/// `a * b`, or the largest value that fits.
pub fn saturating_mul(a: usize, b: usize) -> (product: usize)
    ensures
        product == saturating_product(a as nat, b as nat),
{
    match a.checked_mul(b) {
        Some(product) => product,
        None => usize::MAX,
    }
}

/// Refuses bytes behind a payload that ends at `end`.
pub fn check_no_trailing_payload(bytes: &[u8], end: usize) -> (res: Result<
    (),
    DeserializationError,
>)
    ensures
        res == if end > bytes@.len() {
            Err::<(), DeserializationError>(DeserializationError::UnexpectedEOF)
        } else if end < bytes@.len() {
            refused(InvalidValue::TrailingBytes)
        } else {
            Ok(())
        },
{
    if end > bytes.len() {
        return Err(DeserializationError::UnexpectedEOF);
    }
    if end == bytes.len() {
        return Ok(());
    }
    Err(extra_bytes_after_mast_forest_payload_error())
}

/// The refusal of bytes behind a payload.
pub fn extra_bytes_after_mast_forest_payload_error() -> (error: DeserializationError)
    ensures
        error == DeserializationError::InvalidValue(InvalidValue::TrailingBytes),
{
    DeserializationError::InvalidValue(InvalidValue::TrailingBytes)
}

impl MastForest {
    /// Reads a trusted payload in full.
    pub fn read_from_bytes(bytes: &[u8]) -> (res: Result<MastForest, DeserializationError>)
        ensures
            match trusted(bytes@) {
                Ok(forest) => res is Ok && res->Ok_0@ == forest && forest.wf() && dense(
                    forest.nodes,
                ),
                Err(e) => res is Err && res->Err_0 == e,
            },
    {
        let limit: Option<usize> = Some(
            saturating_mul(bytes.len(), TRUSTED_BYTE_READ_BUDGET_MULTIPLIER),
        );
        let layout = match read_header_and_scan_layout(bytes, limit, false) {
            Ok(layout) => layout,
            Err(e) => {
                return Err(e);
            },
        };
        let mut offset: usize = layout.advice_offset;
        let advice_map = match read_advice_map(bytes, limit, &mut offset) {
            Ok(map) => map,
            Err(e) => {
                return Err(e);
            },
        };
        let forest = match materialize(bytes, layout, advice_map) {
            Ok(forest) => forest,
            Err(e) => {
                return Err(e);
            },
        };
        if let Err(e) = check_no_trailing_payload(bytes, offset) {
            return Err(e);
        }
        Ok(forest)
    }
}

} // verus!
