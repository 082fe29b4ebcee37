//! Operation indices with and without padding.
//!
//! Source rows count the operations of a basic block without padding; a finished block counts them
//! with padding. Padding follows a group, so the padding operations are known by how many unpadded
//! operations come before each of them.

use vstd::prelude::*;

use crate::batch::{group_ops, models, raw_below, raw_group, raw_of, BatchModel, OpBatch};
use crate::operation::Operation;

verus! {

// MODEL
// ================================================================================================

/// Group `g` of a batch ends in a padding operation.
pub open spec fn padded_group(batch: BatchModel, g: int) -> bool {
    batch.padding[g] && group_ops(batch.ops, batch.indptr, g).len() > 0
}

/// For each padding operation in the groups below `g`, how many unpadded operations come before
/// it, where `base` come before the batch.
pub open spec fn batch_boundaries(batch: BatchModel, base: nat, g: nat) -> Seq<nat>
    decreases g,
{
    if g == 0 {
        Seq::empty()
    } else if padded_group(batch, g - 1) {
        batch_boundaries(batch, base, (g - 1) as nat).push(
            base + raw_below(batch.ops, batch.indptr, batch.padding, g).len(),
        )
    } else {
        batch_boundaries(batch, base, (g - 1) as nat)
    }
}

/// For each padding operation of a block, how many unpadded operations come before it.
pub open spec fn boundaries(batches: Seq<BatchModel>) -> Seq<nat>
    decreases batches.len(),
{
    if batches.len() == 0 {
        Seq::empty()
    } else {
        let front = batches.drop_last();
        boundaries(front) + batch_boundaries(batches.last(), raw_of(front).len(), 8)
    }
}

/// How many of the first `k` boundaries are at most `raw`.
pub open spec fn paddings_upto(bounds: Seq<nat>, raw: nat, k: nat) -> nat
    decreases k,
{
    if k == 0 {
        0
    } else {
        paddings_upto(bounds, raw, (k - 1) as nat) + if bounds[k - 1] <= raw {
            1nat
        } else {
            0nat
        }
    }
}

/// How many of the first `k` padding operations stand before padded index `padded`. Padding
/// operation `j` stands at padded index `bounds[j] + j`.
pub open spec fn paddings_before(bounds: Seq<nat>, padded: nat, k: nat) -> nat
    decreases k,
{
    if k == 0 {
        0
    } else {
        paddings_before(bounds, padded, (k - 1) as nat) + if bounds[k - 1] + (k - 1) < padded {
            1nat
        } else {
            0nat
        }
    }
}

/// The padded index of unpadded operation `raw`.
pub open spec fn adjusted(batches: Seq<BatchModel>, raw: nat) -> nat {
    let bounds = boundaries(batches);
    raw + paddings_upto(bounds, raw, bounds.len())
}

/// The unpadded index of the operation at padded index `padded`.
pub open spec fn unadjusted(batches: Seq<BatchModel>, padded: nat) -> int {
    let bounds = boundaries(batches);
    padded - paddings_before(bounds, padded, bounds.len())
}

/// The number of operations of a block with padding.
pub open spec fn padded_len(batches: Seq<BatchModel>) -> nat {
    crate::block::all_ops(batches).len()
}

pub open spec fn batches_wf(batches: Seq<BatchModel>) -> bool {
    forall|i: int| 0 <= i < batches.len() ==> (#[trigger] batches[i]).wf()
}

// LEMMAS
// ================================================================================================

pub proof fn lemma_raw_below_monotone(batch: BatchModel, i: nat, g: nat)
    requires
        i <= g,
    ensures
        raw_below(batch.ops, batch.indptr, batch.padding, i).len() <= raw_below(
            batch.ops,
            batch.indptr,
            batch.padding,
            g,
        ).len(),
    decreases g,
{
    if i < g {
        lemma_raw_below_monotone(batch, i, (g - 1) as nat);
    }
}

/// The boundaries of a batch do not decrease, and lie between the operations before the batch
/// and those up to its end.
pub proof fn lemma_batch_boundaries(batch: BatchModel, base: nat, g: nat)
    ensures
        ({
            let b = batch_boundaries(batch, base, g);
            let end = base + raw_below(batch.ops, batch.indptr, batch.padding, g).len();
            &&& b.len() <= g
            &&& forall|i: int| 0 <= i < b.len() ==> base <= #[trigger] b[i] <= end
            &&& forall|i: int, j: int| 0 <= i <= j < b.len() ==> b[i] <= b[j]
        }),
    decreases g,
{
    if g > 0 {
        lemma_batch_boundaries(batch, base, (g - 1) as nat);
        lemma_raw_below_monotone(batch, (g - 1) as nat, g);
    }
}

/// The boundaries of a block do not decrease and lie in its unpadded operations.
pub proof fn lemma_boundaries(batches: Seq<BatchModel>)
    ensures
        ({
            let b = boundaries(batches);
            &&& b.len() <= 8 * batches.len()
            &&& forall|i: int| 0 <= i < b.len() ==> #[trigger] b[i] <= raw_of(batches).len()
            &&& forall|i: int, j: int| 0 <= i <= j < b.len() ==> b[i] <= b[j]
        }),
    decreases batches.len(),
{
    if batches.len() > 0 {
        let front = batches.drop_last();
        lemma_boundaries(front);
        lemma_batch_boundaries(batches.last(), raw_of(front).len(), 8);
    }
}

pub proof fn lemma_paddings_upto_bound(bounds: Seq<nat>, raw: nat, k: nat)
    ensures
        paddings_upto(bounds, raw, k) <= k,
    decreases k,
{
    if k > 0 {
        lemma_paddings_upto_bound(bounds, raw, (k - 1) as nat);
    }
}

proof fn lemma_paddings_before_bound(bounds: Seq<nat>, padded: nat, k: nat)
    ensures
        paddings_before(bounds, padded, k) <= k,
    decreases k,
{
    if k > 0 {
        lemma_paddings_before_bound(bounds, padded, (k - 1) as nat);
    }
}

/// The boundaries that are at most `raw` come first.
proof fn lemma_paddings_upto_prefix(bounds: Seq<nat>, raw: nat, k: nat)
    requires
        k <= bounds.len(),
        forall|i: int, j: int| 0 <= i <= j < bounds.len() ==> bounds[i] <= bounds[j],
    ensures
        ({
            let n = paddings_upto(bounds, raw, k);
            &&& n <= k
            &&& forall|i: int| 0 <= i < n ==> #[trigger] bounds[i] <= raw
            &&& forall|i: int| n <= i < k ==> #[trigger] bounds[i] > raw
        }),
    decreases k,
{
    if k > 0 {
        lemma_paddings_upto_prefix(bounds, raw, (k - 1) as nat);
        let n = paddings_upto(bounds, raw, (k - 1) as nat);
        if bounds[k - 1] <= raw && n < k - 1 {
            assert(bounds[n as int] <= bounds[k - 1]);
        }
    }
}

proof fn lemma_paddings_before_adjusted(bounds: Seq<nat>, raw: nat, n: nat, k: nat)
    requires
        k <= bounds.len(),
        n <= bounds.len(),
        forall|i: int| 0 <= i < n ==> #[trigger] bounds[i] <= raw,
        forall|i: int| n <= i < bounds.len() ==> #[trigger] bounds[i] > raw,
    ensures
        paddings_before(bounds, raw + n, k) == if k <= n {
            k
        } else {
            n
        },
    decreases k,
{
    if k > 0 {
        lemma_paddings_before_adjusted(bounds, raw, n, (k - 1) as nat);
        assert(k - 1 < n ==> bounds[k - 1] <= raw);
        assert(k - 1 >= n ==> bounds[k - 1] > raw);
    }
}

/// An index that was adjusted for padding is found again without it.
pub proof fn law_adjust_round_trip(batches: Seq<BatchModel>, raw: nat)
    ensures
        unadjusted(batches, adjusted(batches, raw)) == raw,
{
    let bounds = boundaries(batches);
    lemma_boundaries(batches);
    lemma_paddings_upto_prefix(bounds, raw, bounds.len());
    let n = paddings_upto(bounds, raw, bounds.len());
    lemma_paddings_before_adjusted(bounds, raw, n, bounds.len());
}

/// Adjusting keeps the order of operations.
pub proof fn law_adjust_monotone(batches: Seq<BatchModel>, a: nat, b: nat)
    requires
        a < b,
    ensures
        adjusted(batches, a) < adjusted(batches, b),
{
    let bounds = boundaries(batches);
    lemma_upto_monotone(bounds, a, b, bounds.len());
}

proof fn lemma_upto_monotone(bounds: Seq<nat>, a: nat, b: nat, k: nat)
    requires
        a < b,
    ensures
        paddings_upto(bounds, a, k) <= paddings_upto(bounds, b, k),
    decreases k,
{
    if k > 0 {
        lemma_upto_monotone(bounds, a, b, (k - 1) as nat);
    }
}

proof fn lemma_batch_padded_len(batch: BatchModel, base: nat, g: nat)
    requires
        batch.wf(),
        g <= 8,
    ensures
        batch.indptr[g as int] == raw_below(batch.ops, batch.indptr, batch.padding, g).len()
            + batch_boundaries(batch, base, g).len(),
    decreases g,
{
    if g > 0 {
        lemma_batch_padded_len(batch, base, (g - 1) as nat);
        assert(batch.indptr[g - 1] <= batch.indptr[g as int] <= batch.indptr[8]);
    }
}

/// A block holds its own operations and one padding operation per boundary.
pub proof fn lemma_padded_len(batches: Seq<BatchModel>)
    requires
        batches_wf(batches),
    ensures
        padded_len(batches) == raw_of(batches).len() + boundaries(batches).len(),
    decreases batches.len(),
{
    if batches.len() > 0 {
        let front = batches.drop_last();
        let last = batches[batches.len() - 1];
        assert forall|i: int| 0 <= i < front.len() implies (#[trigger] front[i]).wf() by {
            assert(front[i] == batches[i]);
        }
        lemma_padded_len(front);
        assert(last.wf());
        lemma_batch_padded_len(last, raw_of(front).len(), 8);
    }
}

/// Operations of a block stay inside of it.
pub proof fn law_adjust_inside(batches: Seq<BatchModel>, raw: nat)
    requires
        batches_wf(batches),
        raw < raw_of(batches).len(),
    ensures
        adjusted(batches, raw) < padded_len(batches),
{
    lemma_padded_len(batches);
    lemma_paddings_upto_bound(boundaries(batches), raw, boundaries(batches).len());
}

/// How many boundaries are at most `raw` does not depend on boundaries behind them.
proof fn lemma_paddings_upto_front(a: Seq<nat>, b: Seq<nat>, raw: nat, k: nat)
    requires
        k <= a.len(),
        k <= b.len(),
        forall|i: int| 0 <= i < k ==> a[i] == b[i],
    ensures
        paddings_upto(a, raw, k) == paddings_upto(b, raw, k),
    decreases k,
{
    if k > 0 {
        lemma_paddings_upto_front(a, b, raw, (k - 1) as nat);
    }
}

/// Boundaries from `k` on that lie behind `raw` do not count, and those before `k` count all if
/// none of them does.
proof fn lemma_paddings_upto_split(bounds: Seq<nat>, raw: nat, k: nat, n: nat)
    requires
        k <= n <= bounds.len(),
    ensures
        (forall|i: int| k <= i < n ==> bounds[i] > raw) ==> paddings_upto(bounds, raw, n)
            == paddings_upto(bounds, raw, k),
        (forall|i: int| 0 <= i < n ==> bounds[i] <= raw) ==> paddings_upto(bounds, raw, n) == n,
    decreases n,
{
    if k < n {
        lemma_paddings_upto_split(bounds, raw, k, (n - 1) as nat);
    } else if n > 0 {
        lemma_paddings_upto_split(bounds, raw, (k - 1) as nat, (n - 1) as nat);
    }
}

/// The boundaries behind the first `m`, of which all are at most `raw`, count as they do alone.
proof fn lemma_paddings_upto_concat(a: Seq<nat>, b: Seq<nat>, raw: nat, k: nat)
    requires
        k <= b.len(),
        forall|i: int| 0 <= i < a.len() ==> a[i] <= raw,
    ensures
        paddings_upto(a + b, raw, a.len() + k) == a.len() + paddings_upto(b, raw, k),
    decreases k,
{
    if k > 0 {
        lemma_paddings_upto_concat(a, b, raw, (k - 1) as nat);
        assert((a + b)[a.len() + k - 1] == b[k - 1]);
    } else {
        lemma_paddings_upto_front(a + b, a, raw, a.len());
        lemma_paddings_upto_split(a, raw, 0, a.len());
    }
}

proof fn lemma_adjusted_in_batch(batch: BatchModel, base: nat, g: nat, raw: nat)
    requires
        batch.wf(),
        g <= 8,
        raw < raw_below(batch.ops, batch.indptr, batch.padding, g).len(),
    ensures
        ({
            let bounds = batch_boundaries(batch, base, g);
            let at = raw + paddings_upto(bounds, base + raw, bounds.len());
            &&& at < batch.indptr[g as int]
            &&& batch.ops[at as int] == raw_below(batch.ops, batch.indptr, batch.padding, g)[raw as int]
        }),
    decreases g,
{
    let bounds = batch_boundaries(batch, base, g);
    let earlier = batch_boundaries(batch, base, (g - 1) as nat);
    let below = raw_below(batch.ops, batch.indptr, batch.padding, (g - 1) as nat);
    let group = raw_group(batch.ops, batch.indptr, batch.padding, g - 1);
    lemma_batch_boundaries(batch, base, (g - 1) as nat);
    lemma_batch_padded_len(batch, base, (g - 1) as nat);
    lemma_batch_padded_len(batch, base, g);
    assert(batch.indptr[g - 1] <= batch.indptr[g as int] <= batch.indptr[8]);
    assert(forall|i: int| earlier.len() <= i < bounds.len() ==> bounds[i] > base + raw);
    lemma_paddings_upto_split(bounds, base + raw, earlier.len(), bounds.len());
    lemma_paddings_upto_front(bounds, earlier, base + raw, earlier.len());
    if raw < below.len() {
        lemma_adjusted_in_batch(batch, base, (g - 1) as nat, raw);
    } else {
        lemma_paddings_upto_split(earlier, base + raw, 0, earlier.len());
        let t = raw - below.len();
        assert(group[t] == batch.ops[batch.indptr[g - 1] + t]);
    }
}

/// The operation at an index that was adjusted for padding is the one that had the index without
/// padding.
pub proof fn law_adjusted_index_finds_the_operation(batches: Seq<BatchModel>, raw: nat)
    requires
        batches_wf(batches),
        raw < raw_of(batches).len(),
    ensures
        adjusted(batches, raw) < padded_len(batches),
        crate::block::all_ops(batches)[adjusted(batches, raw) as int] == raw_of(batches)[raw as int],
    decreases batches.len(),
{
    let front = batches.drop_last();
    let last = batches.last();
    let n = raw_of(front).len();
    let a = boundaries(front);
    let b = batch_boundaries(last, n, 8);
    assert forall|i: int| 0 <= i < front.len() implies (#[trigger] front[i]).wf() by {
        assert(front[i] == batches[i]);
    }
    assert(last == batches[batches.len() - 1]);
    lemma_padded_len(front);
    lemma_boundaries(front);
    lemma_batch_boundaries(last, n, 8);
    if raw < n {
        law_adjusted_index_finds_the_operation(front, raw);
        lemma_paddings_upto_split(a + b, raw, a.len(), (a + b).len());
        lemma_paddings_upto_front(a + b, a, raw, a.len());
    } else {
        let t = (raw - n) as nat;
        lemma_paddings_upto_concat(a, b, raw, b.len());
        lemma_adjusted_in_batch(last, n, 8, t);
        assert(n + t == raw);
    }
}

// COMPUTING
// ================================================================================================

/// The unpadded operations of a block.
pub fn raw_operations(batches: &Vec<OpBatch>) -> (ops: Vec<Operation>)
    requires
        batches_wf(models(batches@)),
    ensures
        ops@ == raw_of(models(batches@)),
{
    let ghost bs = models(batches@);
    let mut ops: Vec<Operation> = Vec::new();
    let mut i: usize = 0;
    assert(raw_of(bs.take(0)) =~= Seq::<Operation>::empty());
    while i < batches.len()
        invariant
            i <= batches.len(),
            bs == models(batches@),
            batches_wf(bs),
            ops@ == raw_of(bs.take(i as int)),
        decreases batches.len() - i,
    {
        let batch = &batches[i];
        let ghost model = bs[i as int];
        let ghost before = ops@;
        assert(model.wf());
        let mut g: usize = 0;
        while g < 8
            invariant
                g <= 8,
                model == batch@,
                model.wf(),
                ops@ =~= before + raw_below(model.ops, model.indptr, model.padding, g as nat),
            decreases 8 - g,
        {
            assert(model.indptr[g as int] <= model.indptr[g + 1] <= model.indptr[8]);
            let start: usize = batch.indptr[g];
            let end: usize = batch.indptr[g + 1];
            let stop: usize = if batch.padding[g] && start < end {
                end - 1
            } else {
                end
            };
            let ghost group = group_ops(model.ops, model.indptr, g as int);
            let ghost raw = raw_group(model.ops, model.indptr, model.padding, g as int);
            assert(raw =~= model.ops.subrange(start as int, stop as int));
            let ghost earlier = ops@;
            let mut j: usize = start;
            while j < stop
                invariant
                    start <= j <= stop <= batch.ops@.len(),
                    model.ops == batch.ops@,
                    ops@ =~= earlier + model.ops.subrange(start as int, j as int),
                decreases stop - j,
            {
                ops.push(batch.ops[j]);
                j += 1;
            }
            g += 1;
        }
        proof {
            assert(bs.take(i + 1).drop_last() =~= bs.take(i as int));
            assert(bs.take(i + 1).last() == model);
        }
        i += 1;
    }
    assert(bs.take(i as int) =~= bs);
    ops
}

/// The paddings of a block by the number of unpadded operations before each.
pub fn padding_boundaries(batches: &Vec<OpBatch>) -> (bounds: Vec<u64>)
    requires
        batches_wf(models(batches@)),
        batches@.len() <= u32::MAX,
    ensures
        bounds@.len() == boundaries(models(batches@)).len(),
        forall|i: int|
            0 <= i < bounds@.len() ==> #[trigger] bounds@[i] == boundaries(models(batches@))[i],
{
    let ghost bs = models(batches@);
    proof {
        lemma_raw_of_bound(bs);
    }
    let mut bounds: Vec<u64> = Vec::new();
    let mut raw: u64 = 0;
    let mut i: usize = 0;
    while i < batches.len()
        invariant
            i <= batches.len(),
            bs == models(batches@),
            batches_wf(bs),
            raw_of(bs).len() <= u64::MAX,
            raw == raw_of(bs.take(i as int)).len(),
            bounds@.len() == boundaries(bs.take(i as int)).len(),
            forall|k: int|
                0 <= k < bounds@.len() ==> #[trigger] bounds@[k] == boundaries(
                    bs.take(i as int),
                )[k],
        decreases batches.len() - i,
    {
        let batch = &batches[i];
        let ghost model = bs[i as int];
        let ghost base = raw_of(bs.take(i as int)).len();
        let ghost before = boundaries(bs.take(i as int));
        proof {
            assert(model.wf());
            assert(bs.take(i + 1).drop_last() =~= bs.take(i as int));
            assert(bs.take(i + 1).last() == model);
            lemma_raw_of_prefix(bs, (i + 1) as nat);
        }
        let mut g: usize = 0;
        while g < 8
            invariant
                g <= 8,
                model == batch@,
                model.wf(),
                base + raw_below(model.ops, model.indptr, model.padding, 8).len() <= u64::MAX,
                raw == base + raw_below(model.ops, model.indptr, model.padding, g as nat).len(),
                bounds@.len() == (before + batch_boundaries(model, base, g as nat)).len(),
                forall|k: int|
                    0 <= k < bounds@.len() ==> #[trigger] bounds@[k] == (before + batch_boundaries(
                        model,
                        base,
                        g as nat,
                    ))[k],
            decreases 8 - g,
        {
            assert(model.indptr[g as int] <= model.indptr[g + 1] <= model.indptr[8]);
            let start: usize = batch.indptr[g];
            let end: usize = batch.indptr[g + 1];
            let padded: bool = batch.padding[g] && start < end;
            let count: usize = if padded {
                end - start - 1
            } else {
                end - start
            };
            proof {
                let group = group_ops(model.ops, model.indptr, g as int);
                assert(raw_group(model.ops, model.indptr, model.padding, g as int).len() == count);
                lemma_raw_below_monotone(model, (g + 1) as nat, 8);
            }
            raw = raw + count as u64;
            if padded {
                bounds.push(raw);
            }
            g += 1;
        }
        i += 1;
    }
    assert(bs.take(i as int) =~= bs);
    bounds
}

/// A batch holds at most seventy-two operations.
pub proof fn lemma_batch_len(batch: BatchModel)
    requires
        batch.wf(),
    ensures
        batch.ops.len() <= 72,
        batch.raw_ops().len() <= batch.ops.len(),
{
    reveal(crate::batch::assembled);
    lemma_indptr_bound(batch, 8);
    lemma_raw_below_bound(batch, 8);
}

proof fn lemma_indptr_bound(batch: BatchModel, g: nat)
    requires
        batch.wf(),
        g <= 8,
    ensures
        batch.indptr[g as int] <= 9 * g,
    decreases g,
{
    if g > 0 {
        reveal(crate::batch::assembled);
        lemma_indptr_bound(batch, (g - 1) as nat);
        crate::block::lemma_group_len(batch.ops, batch.indptr, (g - 1) as nat, 8);
    }
}

proof fn lemma_raw_below_bound(batch: BatchModel, g: nat)
    requires
        batch.wf(),
        g <= 8,
    ensures
        raw_below(batch.ops, batch.indptr, batch.padding, g).len() <= batch.indptr[g as int],
    decreases g,
{
    if g > 0 {
        lemma_raw_below_bound(batch, (g - 1) as nat);
        assert(batch.indptr[g - 1] <= batch.indptr[g as int] <= batch.indptr[8]);
    }
}

/// A block holds at most seventy-two operations per batch.
pub proof fn lemma_raw_of_bound(batches: Seq<BatchModel>)
    requires
        batches_wf(batches),
    ensures
        raw_of(batches).len() <= crate::block::all_ops(batches).len() <= 72 * batches.len(),
    decreases batches.len(),
{
    if batches.len() > 0 {
        let front = batches.drop_last();
        assert forall|i: int| 0 <= i < front.len() implies (#[trigger] front[i]).wf() by {
            assert(front[i] == batches[i]);
        }
        lemma_raw_of_bound(front);
        let last = batches[batches.len() - 1];
        assert(last.wf());
        lemma_batch_len(last);
    }
}

pub proof fn lemma_raw_of_prefix(batches: Seq<BatchModel>, k: nat)
    requires
        k <= batches.len(),
    ensures
        raw_of(batches.take(k as int)).len() <= raw_of(batches).len(),
    decreases batches.len(),
{
    if k < batches.len() {
        lemma_raw_of_prefix(batches.drop_last(), k);
        assert(batches.drop_last().take(k as int) =~= batches.take(k as int));
    } else {
        assert(batches.take(k as int) =~= batches);
    }
}

/// The padded index of unpadded operation `raw` of a block.
pub fn adjust_index(batches: &Vec<OpBatch>, raw: u32) -> (padded: u64)
    requires
        batches_wf(models(batches@)),
        batches@.len() <= u32::MAX,
    ensures
        padded == adjusted(models(batches@), raw as nat),
        padded >= raw,
{
    let bounds = padding_boundaries(batches);
    let ghost b = boundaries(models(batches@));
    proof {
        lemma_boundaries(models(batches@));
    }
    let mut count: u64 = 0;
    let mut k: usize = 0;
    while k < bounds.len()
        invariant
            k <= bounds@.len() == b.len(),
            b.len() <= 8 * u32::MAX,
            forall|i: int| 0 <= i < bounds@.len() ==> #[trigger] bounds@[i] == b[i],
            count == paddings_upto(b, raw as nat, k as nat),
            count <= k,
        decreases bounds.len() - k,
    {
        if bounds[k] <= raw as u64 {
            count = count + 1;
        }
        k += 1;
    }
    raw as u64 + count
}

/// The unpadded index of the operation at padded index `padded` of a block.
pub fn unadjust_index(batches: &Vec<OpBatch>, padded: u32) -> (raw: u32)
    requires
        batches_wf(models(batches@)),
        batches@.len() <= u32::MAX,
    ensures
        raw == unadjusted(models(batches@), padded as nat),
        raw <= padded,
{
    let bounds = padding_boundaries(batches);
    let ghost b = boundaries(models(batches@));
    let mut count: u32 = 0;
    let mut k: usize = 0;
    while k < bounds.len()
        invariant
            k <= bounds@.len() == b.len(),
            forall|i: int| 0 <= i < bounds@.len() ==> #[trigger] bounds@[i] == b[i],
            count == paddings_before(b, padded as nat, k as nat),
            count <= k,
            count <= padded,
        decreases bounds.len() - k,
    {
        let bound: u64 = bounds[k];
        if bound < padded as u64 && (k as u64) < padded as u64 - bound {
            assert(count <= k && k < padded);
            count = count + 1;
        }
        k += 1;
    }
    padded - count
}

} // verus!
