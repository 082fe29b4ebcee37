//! Forests of unknown origin: parsed first, validated before use.

use vstd::prelude::*;

use crate::batch::{full_batches, group_ops, models, BatchModel, OpBatch};
use crate::error::{AllocationLabel, DeserializationError, InvalidValue};
use crate::felt::Word;
use crate::forest::{
    dense, AdviceMap, AdviceModel, BatchFault, ForestModel, MastForest, MastForestError,
};
use crate::layout::{
    layout_inside, read_advice_map, read_header_and_scan_layout, refused, ForestLayout,
};
use crate::node::{
    children_below, compute_digest, digest_in, KindModel, MastNodeId, NodeKind, NodeModel,
};
use crate::operation::Operation;
use crate::read::{
    decoded, extra_bytes_after_mast_forest_payload_error, materialize, materialized, saturating_mul,
    saturating_product,
};
use crate::wire::FLAG_HASHLESS;

verus! {

/// Default ratio of the validation budget to the length of the payload.
pub const DEFAULT_UNTRUSTED_ALLOCATION_BUDGET_MULTIPLIER: usize = 7;

/// Budgets for reading an untrusted payload.
#[derive(Clone, Copy, PartialEq, Eq, Structural, Debug)]
pub struct UntrustedMastForestReadOptions {
    pub wire_byte_budget: Option<usize>,
    pub validation_allocation_budget: Option<usize>,
}

impl UntrustedMastForestReadOptions {
    pub fn new() -> (options: UntrustedMastForestReadOptions)
        ensures
            options.wire_byte_budget is None,
            options.validation_allocation_budget is None,
    {
        UntrustedMastForestReadOptions {
            wire_byte_budget: None,
            validation_allocation_budget: None,
        }
    }

    pub fn with_wire_byte_budget(self, budget: usize) -> (options: UntrustedMastForestReadOptions)
        ensures
            options.wire_byte_budget == Some(budget),
            options.validation_allocation_budget == self.validation_allocation_budget,
    {
        UntrustedMastForestReadOptions {
            wire_byte_budget: Some(budget),
            validation_allocation_budget: self.validation_allocation_budget,
        }
    }

    pub fn with_validation_allocation_budget(self, budget: usize) -> (options:
        UntrustedMastForestReadOptions)
        ensures
            options.wire_byte_budget == self.wire_byte_budget,
            options.validation_allocation_budget == Some(budget),
    {
        UntrustedMastForestReadOptions {
            wire_byte_budget: self.wire_byte_budget,
            validation_allocation_budget: Some(budget),
        }
    }
}

/// A parsed payload whose nodes have not been validated.
pub struct UntrustedMastForest {
    pub bytes: Vec<u8>,
    pub layout: ForestLayout,
    pub advice_map: AdviceMap,
    pub remaining_allocation_budget: Option<usize>,
}

impl UntrustedMastForest {
    pub open spec fn wf(&self) -> bool {
        layout_inside(self.layout, self.bytes@.len()) && self.advice_map.wf()
    }
}

// MODEL
// ================================================================================================

/// The wire flags of a payload.
pub open spec fn flags_of(hashless: bool) -> u8 {
    if hashless {
        FLAG_HASHLESS
    } else {
        0
    }
}

/// What a reader with a byte budget sees of a payload: a read beyond the budget fails because of
/// the budget.
#[verifier::opaque]
pub open spec fn budgeted(bytes: Seq<u8>, budget: usize, allow_hashless: bool) -> Result<
    (ForestLayout, AdviceModel, nat),
    DeserializationError,
> {
    if budget < bytes.len() {
        match decoded(bytes.take(budget as int), Some(budget), allow_hashless) {
            Err(DeserializationError::UnexpectedEOF) => refused(
                InvalidValue::BudgetExhausted { budget },
            ),
            res => res,
        }
    } else {
        decoded(bytes, Some(budget), allow_hashless)
    }
}

/// The charge of `count` items of `size` bytes against a budget: what remains of it.
pub open spec fn charged(budget: usize, count: nat, size: nat, label: AllocationLabel) -> Result<
    usize,
    DeserializationError,
> {
    if count * size > usize::MAX {
        refused(InvalidValue::AllocationOverflow { label })
    } else if count * size > budget {
        refused(
            InvalidValue::AllocationExceeded {
                label,
                needed: (count * size) as usize,
                remaining: budget,
            },
        )
    } else {
        Ok((budget - count * size) as usize)
    }
}

/// The charges of validating a payload: one digest slot per node, and one digest per node where
/// digests are rebuilt.
pub open spec fn validation_charge(layout: ForestLayout, budget: usize) -> Result<
    usize,
    DeserializationError,
> {
    match charged(
        budget,
        layout.node_count as nat,
        vstd::layout::size_of::<usize>(),
        AllocationLabel::DigestSlots,
    ) {
        Err(e) => Err(e),
        Ok(rest) => if layout.hashless {
            charged(
                rest,
                layout.node_count as nat,
                vstd::layout::size_of::<Word>(),
                AllocationLabel::RebuiltDigests,
            )
        } else {
            Ok(rest)
        },
    }
}

/// The forest of a parsed payload, if its validation fits the budget.
pub open spec fn budgeted_forest(
    bytes: Seq<u8>,
    layout: ForestLayout,
    advice_map: AdviceModel,
    budget: Option<usize>,
) -> Result<ForestModel, DeserializationError> {
    match budget {
        Some(b) => match validation_charge(layout, b) {
            Err(e) => Err(e),
            Ok(_) => materialized(bytes, layout, advice_map),
        },
        None => materialized(bytes, layout, advice_map),
    }
}

/// The first padded group below `g` that does not end in a `Noop`.
pub open spec fn padding_fault(batch: BatchModel, index: int, g: nat) -> Option<BatchFault>
    decreases g,
{
    if g == 0 {
        None
    } else {
        match padding_fault(batch, index, (g - 1) as nat) {
            Some(fault) => Some(fault),
            None => {
                let group = group_ops(batch.ops, batch.indptr, g - 1);
                if batch.padding[g - 1] && group.len() > 0 && group.last() != Operation::Noop {
                    Some(
                        BatchFault::PaddingNotNoop {
                            batch: index as usize,
                            group: (g - 1) as usize,
                        },
                    )
                } else {
                    None
                }
            },
        }
    }
}

/// What is wrong with batch `i` of a block.
pub open spec fn batch_fault(batches: Seq<BatchModel>, i: int) -> Option<BatchFault> {
    let n = batches[i].num_groups;
    if i + 1 < batches.len() && n != 8 {
        Some(BatchFault::NotFull { batch: i as usize })
    } else if n != 1 && n != 2 && n != 4 && n != 8 {
        Some(BatchFault::NotPowerOfTwo { batch: i as usize })
    } else {
        padding_fault(batches[i], i, 8)
    }
}

/// The first fault in the first `k` batches of a block.
pub open spec fn block_fault(batches: Seq<BatchModel>, k: nat) -> Option<BatchFault>
    decreases k,
{
    if k == 0 {
        None
    } else {
        match block_fault(batches, (k - 1) as nat) {
            Some(fault) => Some(fault),
            None => batch_fault(batches, k - 1),
        }
    }
}

/// What is wrong with node `i`: a batch of its block, or a digest that is not the one that its
/// structure has.
pub open spec fn node_fault(nodes: Seq<NodeModel>, i: int) -> Option<MastForestError> {
    let id = MastNodeId(i as u32);
    let computed = digest_in(nodes, nodes[i].kind, nodes[i].digest);
    let block: Option<BatchFault> = match nodes[i].kind {
        KindModel::Block(batches) => block_fault(batches, batches.len()),
        _ => None,
    };
    match block {
        Some(fault) => Some(MastForestError::InvalidBatchPadding(id, fault)),
        None => if computed != nodes[i].digest {
            Some(
                MastForestError::HashMismatch { node_id: id, expected: nodes[i].digest, computed },
            )
        } else {
            None
        },
    }
}

/// The first fault in the first `k` nodes.
pub open spec fn forest_fault(nodes: Seq<NodeModel>, k: nat) -> Option<MastForestError>
    decreases k,
{
    if k == 0 {
        None
    } else {
        match forest_fault(nodes, (k - 1) as nat) {
            Some(e) => Some(e),
            None => node_fault(nodes, k - 1),
        }
    }
}

/// The validated forest of a parsed payload.
pub open spec fn validated(
    bytes: Seq<u8>,
    layout: ForestLayout,
    advice_map: AdviceModel,
    budget: Option<usize>,
) -> Result<ForestModel, MastForestError> {
    match budgeted_forest(bytes, layout, advice_map, budget) {
        Err(e) => Err(MastForestError::Deserialization(e)),
        Ok(forest) => match forest_fault(forest.nodes, forest.nodes.len()) {
            Some(e) => Err(e),
            None => Ok(forest),
        },
    }
}

/// The byte budget and the validation budget that options give for a payload of `len` bytes.
pub open spec fn budgets(options: UntrustedMastForestReadOptions, len: nat) -> (usize, usize) {
    let wire = match options.wire_byte_budget {
        Some(b) => b,
        None => len as usize,
    };
    let validation = match options.validation_allocation_budget {
        Some(b) => b,
        None => saturating_product(wire as nat, 7) as usize,
    };
    (wire, validation)
}

// LEMMAS
// ================================================================================================

proof fn lemma_padding_fault(batch: BatchModel, index: int, k: nat, n: nat)
    requires
        k <= n,
        padding_fault(batch, index, k) is Some,
    ensures
        padding_fault(batch, index, n) == padding_fault(batch, index, k),
    decreases n - k,
{
    if k < n {
        lemma_padding_fault(batch, index, k, (n - 1) as nat);
    }
}

proof fn lemma_block_fault(batches: Seq<BatchModel>, k: nat, n: nat)
    requires
        k <= n,
        block_fault(batches, k) is Some,
    ensures
        block_fault(batches, n) == block_fault(batches, k),
    decreases n - k,
{
    if k < n {
        lemma_block_fault(batches, k, (n - 1) as nat);
    }
}

proof fn lemma_forest_fault(nodes: Seq<NodeModel>, k: nat, n: nat)
    requires
        k <= n,
        forest_fault(nodes, k) is Some,
    ensures
        forest_fault(nodes, n) == forest_fault(nodes, k),
    decreases n - k,
{
    if k < n {
        lemma_forest_fault(nodes, k, (n - 1) as nat);
    }
}

/// In a validated forest every digest is the one that the structure of its node has.
pub proof fn law_validated_digests(
    bytes: Seq<u8>,
    layout: ForestLayout,
    advice_map: AdviceModel,
    budget: Option<usize>,
    i: int,
)
    requires
        validated(bytes, layout, advice_map, budget) is Ok,
        0 <= i < validated(bytes, layout, advice_map, budget)->Ok_0.nodes.len(),
    ensures
        ({
            let nodes = validated(bytes, layout, advice_map, budget)->Ok_0.nodes;
            nodes[i].digest == digest_in(nodes, nodes[i].kind, nodes[i].digest)
        }),
{
    let nodes = validated(bytes, layout, advice_map, budget)->Ok_0.nodes;
    lemma_no_forest_fault(nodes, i as nat, nodes.len());
}

pub proof fn lemma_no_forest_fault(nodes: Seq<NodeModel>, i: nat, n: nat)
    requires
        i < n,
        forest_fault(nodes, n) is None,
    ensures
        node_fault(nodes, i as int) is None,
    decreases n,
{
    if i + 1 < n {
        lemma_no_forest_fault(nodes, i, (n - 1) as nat);
    }
}

// BUDGETS
// ================================================================================================

/// Charges `count` items of type `T` against a budget; a refused charge leaves the budget as it
/// was.
pub fn reserve_allocation<T>(
    remaining_budget: &mut usize,
    count: usize,
    label: AllocationLabel,
) -> (res: Result<(), DeserializationError>)
    ensures
        match charged(*old(remaining_budget), count as nat, vstd::layout::size_of::<T>(), label) {
            Ok(rest) => res is Ok && *final(remaining_budget) == rest,
            Err(e) => res == Err::<(), DeserializationError>(e) && *final(remaining_budget) == *old(
                remaining_budget,
            ),
        },
{
    let size: usize = core::mem::size_of::<T>();
    match count.checked_mul(size) {
        None => Err(
            DeserializationError::InvalidValue(InvalidValue::AllocationOverflow { label }),
        ),
        Some(needed) => {
            if needed > *remaining_budget {
                return Err(
                    DeserializationError::InvalidValue(
                        InvalidValue::AllocationExceeded {
                            label,
                            needed,
                            remaining: *remaining_budget,
                        },
                    ),
                );
            }
            *remaining_budget = *remaining_budget - needed;
            Ok(())
        },
    }
}

/// The validation budget of a payload of `bytes_len` bytes.
pub fn default_untrusted_allocation_budget(bytes_len: usize) -> (budget: usize)
    ensures
        budget == saturating_product(bytes_len as nat, 7),
{
    saturating_mul(bytes_len, DEFAULT_UNTRUSTED_ALLOCATION_BUDGET_MULTIPLIER)
}

// READING
// ================================================================================================

fn copy_prefix(bytes: &[u8], end: usize) -> (copy: Vec<u8>)
    requires
        end <= bytes@.len(),
    ensures
        copy@ == bytes@.take(end as int),
{
    let mut copy: Vec<u8> = Vec::new();
    let mut i: usize = 0;
    while i < end
        invariant
            i <= end <= bytes@.len(),
            copy@ =~= bytes@.take(i as int),
        decreases end - i,
    {
        copy.push(bytes[i]);
        i += 1;
    }
    copy
}

/// Parses the layout and the advice map of a payload, and keeps the bytes they stand in. Returns
/// the wire flags beside the forest.
pub fn decode_from_reader_inner(
    bytes: &[u8],
    limit: Option<usize>,
    allow_hashless: bool,
    remaining_allocation_budget: Option<usize>,
) -> (res: Result<(u8, UntrustedMastForest), DeserializationError>)
    ensures
        match decoded(bytes@, limit, allow_hashless) {
            Ok((layout, advice_map, end)) => {
                &&& res is Ok
                &&& res->Ok_0.0 == flags_of(layout.hashless)
                &&& res->Ok_0.1.wf()
                &&& res->Ok_0.1.layout == layout
                &&& res->Ok_0.1.advice_map@ == advice_map
                &&& res->Ok_0.1.bytes@ == bytes@.take(end as int)
                &&& end <= bytes@.len()
                &&& res->Ok_0.1.remaining_allocation_budget == remaining_allocation_budget
            },
            Err(e) => res is Err && res->Err_0 == e,
        },
{
    let layout = match read_header_and_scan_layout(bytes, limit, allow_hashless) {
        Ok(layout) => layout,
        Err(e) => {
            return Err(e);
        },
    };
    let mut offset: usize = layout.advice_offset;
    let advice_map = match read_advice_map(bytes, limit, &mut offset) {
        Ok(map) => map,
        Err(e) => {
            return Err(e);
        },
    };
    proof {
        crate::roundtrip::lemma_advice_advances(bytes@, limit, layout.advice_offset as nat);
    }
    let flags: u8 = if layout.hashless {
        FLAG_HASHLESS
    } else {
        0
    };
    Ok(
        (
            flags,
            UntrustedMastForest {
                bytes: copy_prefix(bytes, offset),
                layout,
                advice_map,
                remaining_allocation_budget,
            },
        ),
    )
}

/// Parses a payload without a budget.
pub fn decode_from_reader(bytes: &[u8], allow_hashless: bool) -> (res: Result<
    (u8, UntrustedMastForest),
    DeserializationError,
>)
    ensures
        match decoded(bytes@, None, allow_hashless) {
            Ok((layout, advice_map, end)) => {
                &&& res is Ok
                &&& res->Ok_0.0 == flags_of(layout.hashless)
                &&& res->Ok_0.1.wf()
                &&& res->Ok_0.1.layout == layout
                &&& res->Ok_0.1.advice_map@ == advice_map
                &&& res->Ok_0.1.bytes@ == bytes@.take(end as int)
                &&& end <= bytes@.len()
                &&& res->Ok_0.1.remaining_allocation_budget is None
            },
            Err(e) => res is Err && res->Err_0 == e,
        },
{
    decode_from_reader_inner(bytes, None, allow_hashless, None)
}

/// Parses an untrusted payload without a budget. Returns the wire flags beside the forest.
pub fn read_untrusted_with_flags(bytes: &[u8]) -> (res: Result<
    (UntrustedMastForest, u8),
    DeserializationError,
>)
    ensures
        match decoded(bytes@, None, true) {
            Ok((layout, advice_map, end)) => {
                &&& res is Ok
                &&& res->Ok_0.1 == flags_of(layout.hashless)
                &&& res->Ok_0.0.wf()
                &&& res->Ok_0.0.layout == layout
                &&& res->Ok_0.0.advice_map@ == advice_map
                &&& res->Ok_0.0.bytes@ == bytes@.take(end as int)
                &&& end <= bytes@.len()
                &&& res->Ok_0.0.remaining_allocation_budget is None
            },
            Err(e) => res is Err && res->Err_0 == e,
        },
{
    match decode_from_reader(bytes, true) {
        Ok((flags, forest)) => Ok((forest, flags)),
        Err(e) => Err(e),
    }
}

/// Parses an untrusted payload under a byte budget, and gives its validation a budget too.
pub fn read_untrusted_with_flags_and_allocation_budget(
    bytes: &[u8],
    wire_byte_budget: usize,
    allocation_budget: usize,
) -> (res: Result<(UntrustedMastForest, u8), DeserializationError>)
    ensures
        match budgeted(bytes@, wire_byte_budget, true) {
            Ok((layout, advice_map, end)) => {
                &&& res is Ok
                &&& res->Ok_0.1 == flags_of(layout.hashless)
                &&& res->Ok_0.0.wf()
                &&& res->Ok_0.0.layout == layout
                &&& res->Ok_0.0.advice_map@ == advice_map
                &&& res->Ok_0.0.bytes@ == bytes@.take(end as int)
                &&& end <= bytes@.len()
                &&& res->Ok_0.0.remaining_allocation_budget == Some(allocation_budget)
            },
            Err(e) => res is Err && res->Err_0 == e,
        },
{
    proof {
        reveal(budgeted);
    }
    let cut: bool = wire_byte_budget < bytes.len();
    let visible = if cut {
        vstd::slice::slice_subrange(bytes, 0, wire_byte_budget)
    } else {
        bytes
    };
    assert(cut ==> visible@ =~= bytes@.take(wire_byte_budget as int));
    match decode_from_reader_inner(visible, Some(wire_byte_budget), true, Some(allocation_budget)) {
        Ok((flags, forest)) => {
            assert(forest.bytes@ =~= bytes@.take(forest.bytes@.len() as int));
            Ok((forest, flags))
        },
        Err(e) => match e {
            DeserializationError::UnexpectedEOF => if cut {
                Err(
                    DeserializationError::InvalidValue(
                        InvalidValue::BudgetExhausted { budget: wire_byte_budget },
                    ),
                )
            } else {
                Err(e)
            },
            _ => Err(e),
        },
    }
}

/// What to tell the operator of a reader of untrusted payloads: one that holds digests is accepted,
/// and validation computes them again.
pub fn untrusted_overspecification(flags: u8) -> (notice: Option<&'static str>)
    ensures
        notice == if flags % 4 >= FLAG_HASHLESS {
            None::<&'static str>
        } else {
            Some(
                "UntrustedMastForest expected HASHLESS input; supplied artifact includes wire node hashes, and validation will recompute them and require them to match",
            )
        },
{
    if flags % 4 >= FLAG_HASHLESS {
        None
    } else {
        Some(
            "UntrustedMastForest expected HASHLESS input; supplied artifact includes wire node hashes, and validation will recompute them and require them to match",
        )
    }
}

fn check_padding(batch: &OpBatch, index: usize) -> (fault: Option<BatchFault>)
    requires
        batch@.wf(),
    ensures
        fault == padding_fault(batch@, index as int, 8),
{
    let mut g: usize = 0;
    while g < 8
        invariant
            g <= 8,
            batch@.wf(),
            padding_fault(batch@, index as int, g as nat) is None,
        decreases 8 - g,
    {
        assert(batch@.indptr[g as int] <= batch@.indptr[g + 1] <= batch@.indptr[8]);
        let start: usize = batch.indptr[g];
        let end: usize = batch.indptr[g + 1];
        if batch.padding[g] && start < end {
            assert(group_ops(batch@.ops, batch@.indptr, g as int).last() == batch.ops@[end - 1]);
            if !is_noop(&batch.ops[end - 1]) {
                proof {
                    lemma_padding_fault(batch@, index as int, (g + 1) as nat, 8);
                }
                return Some(BatchFault::PaddingNotNoop { batch: index, group: g });
            }
        }
        g += 1;
    }
    None
}

fn is_noop(op: &Operation) -> (res: bool)
    ensures
        res == (*op == Operation::Noop),
{
    match op {
        Operation::Noop => true,
        _ => false,
    }
}

/// Checks the batches of a basic block.
pub fn check_block(batches: &Vec<OpBatch>) -> (fault: Option<BatchFault>)
    requires
        forall|i: int| 0 <= i < batches@.len() ==> (#[trigger] batches@[i])@.wf(),
    ensures
        fault == block_fault(models(batches@), batches@.len()),
{
    let ghost bs = models(batches@);
    let n: usize = batches.len();
    let mut i: usize = 0;
    while i < n
        invariant
            i <= n == batches@.len(),
            bs == models(batches@),
            forall|i: int| 0 <= i < batches@.len() ==> (#[trigger] batches@[i])@.wf(),
            block_fault(bs, i as nat) is None,
        decreases n - i,
    {
        proof {
            if block_fault(bs, (i + 1) as nat) is Some {
                lemma_block_fault(bs, (i + 1) as nat, n as nat);
            }
        }
        let groups: usize = batches[i].num_groups;
        if i + 1 < n && groups != 8 {
            return Some(BatchFault::NotFull { batch: i });
        }
        if groups != 1 && groups != 2 && groups != 4 && groups != 8 {
            return Some(BatchFault::NotPowerOfTwo { batch: i });
        }
        if let Some(fault) = check_padding(&batches[i], i) {
            return Some(fault);
        }
        i += 1;
    }
    None
}

impl UntrustedMastForest {
    /// Reads a payload under the default budgets.
    pub fn read_from_bytes(bytes: &[u8]) -> (res: Result<UntrustedMastForest, DeserializationError>)
        ensures
            match budgeted(bytes@, bytes@.len() as usize, true) {
                Ok((layout, advice_map, end)) => if end < bytes@.len() {
                    res is Err && res->Err_0 == DeserializationError::InvalidValue(
                        InvalidValue::TrailingBytes,
                    )
                } else {
                    &&& res is Ok
                    &&& res->Ok_0.wf()
                    &&& res->Ok_0.layout == layout
                    &&& res->Ok_0.advice_map@ == advice_map
                    &&& res->Ok_0.bytes@ == bytes@
                    &&& res->Ok_0.remaining_allocation_budget == Some(
                        saturating_product(bytes@.len(), 7) as usize,
                    )
                },
                Err(e) => res is Err && res->Err_0 == e,
            },
    {
        let _len: usize = bytes.len();
        UntrustedMastForest::read_from_bytes_with_options(
            bytes,
            UntrustedMastForestReadOptions::new(),
        )
    }

    /// Reads a payload under the given budgets.
    ///
    /// Refuses counts that the byte budget cannot hold, and bytes behind the payload.
    pub fn read_from_bytes_with_options(
        bytes: &[u8],
        options: UntrustedMastForestReadOptions,
    ) -> (res: Result<UntrustedMastForest, DeserializationError>)
        ensures
            match budgeted(bytes@, budgets(options, bytes@.len()).0, true) {
                Ok((layout, advice_map, end)) => if end < bytes@.len() {
                    res is Err && res->Err_0 == DeserializationError::InvalidValue(
                        InvalidValue::TrailingBytes,
                    )
                } else {
                    &&& res is Ok
                    &&& res->Ok_0.wf()
                    &&& res->Ok_0.layout == layout
                    &&& res->Ok_0.advice_map@ == advice_map
                    &&& res->Ok_0.bytes@ == bytes@
                    &&& res->Ok_0.remaining_allocation_budget == Some(
                        budgets(options, bytes@.len()).1,
                    )
                },
                Err(e) => res is Err && res->Err_0 == e,
            },
    {
        let wire: usize = match options.wire_byte_budget {
            Some(b) => b,
            None => bytes.len(),
        };
        let validation: usize = match options.validation_allocation_budget {
            Some(b) => b,
            None => default_untrusted_allocation_budget(wire),
        };
        match read_untrusted_with_flags_and_allocation_budget(bytes, wire, validation) {
            Err(e) => Err(e),
            Ok((forest, _)) => {
                if forest.bytes.len() < bytes.len() {
                    return Err(extra_bytes_after_mast_forest_payload_error());
                }
                assert(bytes@.take(bytes@.len() as int) =~= bytes@);
                Ok(forest)
            },
        }
    }

    /// Reads the nodes of the payload within the validation budget.
    pub fn into_materialized(self) -> (res: Result<MastForest, DeserializationError>)
        requires
            self.wf(),
        ensures
            match budgeted_forest(
                self.bytes@,
                self.layout,
                self.advice_map@,
                self.remaining_allocation_budget,
            ) {
                Ok(forest) => res is Ok && res->Ok_0@ == forest && forest.wf() && dense(
                    forest.nodes,
                ),
                Err(e) => res is Err && res->Err_0 == e,
            },
    {
        if let Some(budget) = self.remaining_allocation_budget {
            let mut remaining: usize = budget;
            if let Err(e) = reserve_allocation::<usize>(
                &mut remaining,
                self.layout.node_count,
                AllocationLabel::DigestSlots,
            ) {
                return Err(e);
            }
            if self.layout.hashless {
                if let Err(e) = reserve_allocation::<Word>(
                    &mut remaining,
                    self.layout.node_count,
                    AllocationLabel::RebuiltDigests,
                ) {
                    return Err(e);
                }
            }
        }
        materialize(self.bytes.as_slice(), self.layout, self.advice_map)
    }

    /// Validates the payload: every basic block is batched as it has to be, and every digest is
    /// the one that the structure of its node has.
    pub fn validate(self) -> (res: Result<MastForest, MastForestError>)
        requires
            self.wf(),
        ensures
            match validated(
                self.bytes@,
                self.layout,
                self.advice_map@,
                self.remaining_allocation_budget,
            ) {
                Ok(forest) => res is Ok && res->Ok_0@ == forest && forest.wf() && dense(
                    forest.nodes,
                ),
                Err(e) => res is Err && res->Err_0 == e,
            },
    {
        let forest = match self.into_materialized() {
            Ok(forest) => forest,
            Err(e) => {
                return Err(MastForestError::Deserialization(e));
            },
        };
        match check_nodes(&forest) {
            Some(e) => Err(e),
            None => Ok(forest),
        }
    }
}

/// Checks the nodes of a forest of unknown origin.
pub fn check_nodes(forest: &MastForest) -> (fault: Option<MastForestError>)
    requires
        forest@.wf(),
    ensures
        fault == forest_fault(forest@.nodes, forest@.nodes.len()),
{
    let ghost nodes = forest@.nodes;
    let n: usize = forest.nodes.len();
    let mut i: usize = 0;
    while i < n
        invariant
            i <= n == forest.nodes@.len(),
            nodes == forest@.nodes,
            forest@.wf(),
            forest_fault(nodes, i as nat) is None,
        decreases n - i,
    {
        proof {
            assert(nodes[i as int] == forest.nodes@[i as int]@);
            assert(nodes[i as int].wf());
            assert(children_below(nodes[i as int].kind, i as int));
            if forest_fault(nodes, (i + 1) as nat) is Some {
                lemma_forest_fault(nodes, (i + 1) as nat, n as nat);
            }
        }
        let id = MastNodeId(i as u32);
        let node = &forest.nodes[i];
        if let NodeKind::Block(batches) = &node.kind {
            proof {
                assert forall|j: int| 0 <= j < batches@.len() implies (#[trigger] batches@[
                j])@.wf() by {
                    assert(models(batches@)[j].wf());
                }
            }
            if let Some(fault) = check_block(batches) {
                return Some(MastForestError::InvalidBatchPadding(id, fault));
            }
        }
        let computed = compute_digest(&forest.nodes, &node.kind, node.digest);
        if computed != node.digest {
            return Some(
                MastForestError::HashMismatch { node_id: id, expected: node.digest, computed },
            );
        }
        i += 1;
    }
    None
}

proof fn lemma_padding_free(batch: BatchModel, index: int, g: nat)
    ensures
        padding_fault(batch, index, g) is None <==> forall|k: int|
            0 <= k < g && #[trigger] batch.padding[k] && group_ops(batch.ops, batch.indptr, k).len()
                > 0 ==> group_ops(batch.ops, batch.indptr, k).last() == Operation::Noop,
    decreases g,
{
    if g > 0 {
        lemma_padding_free(batch, index, (g - 1) as nat);
        if forall|k: int|
            0 <= k < g && #[trigger] batch.padding[k] && group_ops(batch.ops, batch.indptr, k).len()
                > 0 ==> group_ops(batch.ops, batch.indptr, k).last() == Operation::Noop {
            assert(batch.padding[g - 1] && group_ops(batch.ops, batch.indptr, g - 1).len() > 0
                ==> group_ops(batch.ops, batch.indptr, g - 1).last() == Operation::Noop);
        }
    }
}

proof fn lemma_block_fault_free(batches: Seq<BatchModel>, k: nat)
    requires
        k <= batches.len(),
    ensures
        block_fault(batches, k) is None <==> forall|i: int|
            0 <= i < k ==> #[trigger] batch_fault(batches, i) is None,
    decreases k,
{
    if k > 0 {
        lemma_block_fault_free(batches, (k - 1) as nat);
    }
}

/// The batches of a block pass validation if and only if every batch but the last is full, the
/// groups of each are a power of two, and padding has no effect.
pub proof fn law_valid_batches(batches: Seq<BatchModel>)
    ensures
        block_fault(batches, batches.len()) is None <==> full_batches(batches) && forall|i: int, g: int|
            0 <= i < batches.len() && 0 <= g < 8 && batches[i].padding[g] && group_ops(
                batches[i].ops,
                batches[i].indptr,
                g,
            ).len() > 0 ==> (#[trigger] group_ops(batches[i].ops, batches[i].indptr, g)).last()
                == Operation::Noop,
{
    lemma_block_fault_free(batches, batches.len());
    assert forall|i: int| 0 <= i < batches.len() implies (padding_fault(batches[i], i, 8) is None
        <==> forall|k: int|
        0 <= k < 8 && #[trigger] batches[i].padding[k] && group_ops(
            batches[i].ops,
            batches[i].indptr,
            k,
        ).len() > 0 ==> group_ops(batches[i].ops, batches[i].indptr, k).last() == Operation::Noop) by {
        lemma_padding_free(batches[i], i, 8);
    }
    if block_fault(batches, batches.len()) is None {
        assert forall|i: int| 0 <= i < batches.len() implies ({
            let n = (#[trigger] batches[i]).num_groups;
            n == 8 || (i == batches.len() - 1 && (n == 1 || n == 2 || n == 4))
        }) by {
            assert(batch_fault(batches, i) is None);
        }
        assert forall|i: int, g: int|
            0 <= i < batches.len() && 0 <= g < 8 && batches[i].padding[g] && group_ops(
                batches[i].ops,
                batches[i].indptr,
                g,
            ).len() > 0 implies (#[trigger] group_ops(
            batches[i].ops,
            batches[i].indptr,
            g,
        )).last() == Operation::Noop by {
            assert(batch_fault(batches, i) is None);
            lemma_padding_free(batches[i], i, 8);
        }
    } else {
        let i = choose|i: int|
            0 <= i < batches.len() && !(#[trigger] batch_fault(batches, i) is None);
        lemma_padding_free(batches[i], i, 8);
        let n = batches[i].num_groups;
        if n == 8 || (i == batches.len() - 1 && (n == 1 || n == 2 || n == 4)) {
            let g = choose|k: int|
                0 <= k < 8 && #[trigger] batches[i].padding[k] && group_ops(
                    batches[i].ops,
                    batches[i].indptr,
                    k,
                ).len() > 0 && group_ops(batches[i].ops, batches[i].indptr, k).last()
                    != Operation::Noop;
            assert(group_ops(batches[i].ops, batches[i].indptr, g).last() != Operation::Noop);
        }
    }
}

/// What validation takes from its budget: room for the place of each digest, and for the digests
/// themselves if they have to be computed.
pub open spec fn validation_cost(layout: ForestLayout) -> nat {
    layout.node_count as nat * vstd::layout::size_of::<usize>() + if layout.hashless {
        layout.node_count as nat * vstd::layout::size_of::<Word>()
    } else {
        0
    }
}

/// Validation is allowed if and only if its budget covers what it takes, and leaves the rest.
pub proof fn law_validation_is_paid_for(layout: ForestLayout, budget: usize)
    ensures
        match validation_charge(layout, budget) {
            Ok(rest) => rest + validation_cost(layout) == budget,
            Err(_) => budget < validation_cost(layout),
        },
{
}

/// Budgets that are given are kept to; else a payload may be read to its end, and validation may take
/// seven bytes for each of its bytes.
pub proof fn law_default_budgets_cover_the_payload(
    options: UntrustedMastForestReadOptions,
    len: nat,
)
    requires
        len <= usize::MAX,
    ensures
        ({
            let (wire, validation) = budgets(options, len);
            &&& options.wire_byte_budget matches Some(b) ==> wire == b
            &&& options.wire_byte_budget is None ==> wire == len
            &&& options.validation_allocation_budget matches Some(b) ==> validation == b
            &&& options.validation_allocation_budget is None ==> validation == if 7 * wire
                <= usize::MAX {
                7 * wire
            } else {
                usize::MAX as int
            }
        }),
{
}

} // verus!
