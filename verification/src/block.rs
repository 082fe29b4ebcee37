//! Basic blocks on the wire: the padded operations, then the layout of each batch.
//!
//! A block is written as the number of its operations and the operations, the number of batches in
//! four bytes, the group boundaries of each batch in four bytes, and the padding flags of each
//! batch in one byte. Boundaries are kept as eight group lengths of four bits.

use vstd::prelude::*;

use crate::batch::{assembled, group_ops, is_indptr, models, next_slot, BatchModel, OpBatch};
use crate::bytes::{
    count_at, count_bytes, holds_at, law_count_round_trip, law_le_round_trip, le_bytes, le_integer,
    le_value, lemma_count_bytes_len, lemma_holds_at_split, lemma_le_bytes_len,
    lemma_le_value_bound, lemma_pow256_values, read_slice_at, read_usize_at, slice_at, write_count,
    write_le,
};
use crate::error::{DeserializationError, InvalidValue};
use crate::operation::{
    law_operation_round_trip, operation_at, read_operation_at, Operation,
};

verus! {

// MODEL
// ================================================================================================

/// Operations on the wire, one behind the other.
pub open spec fn ops_bytes(ops: Seq<Operation>) -> Seq<u8>
    decreases ops.len(),
{
    if ops.len() == 0 {
        Seq::empty()
    } else {
        ops_bytes(ops.drop_last()) + ops.last().bytes()
    }
}

/// The `n` operations from offset `at` on, and the offset behind them.
pub open spec fn ops_at(bytes: Seq<u8>, at: nat, n: nat) -> Result<
    (Seq<Operation>, nat),
    DeserializationError,
>
    decreases n,
{
    if n == 0 {
        Ok((Seq::empty(), at))
    } else {
        match ops_at(bytes, at, (n - 1) as nat) {
            Err(e) => Err(e),
            Ok((ops, end)) => match operation_at(bytes, end) {
                Err(e) => Err(e),
                Ok((op, len)) => Ok((ops.push(op), end + len)),
            },
        }
    }
}

/// The length of group `g`.
pub open spec fn group_len(indptr: Seq<usize>, g: int) -> int {
    indptr[g + 1] - indptr[g]
}

/// Group boundaries on the wire.
pub open spec fn indptr_bytes(indptr: Seq<usize>) -> Seq<u8> {
    Seq::new(
        4,
        |j: int| (group_len(indptr, 2 * j) + 16 * group_len(indptr, 2 * j + 1)) as u8,
    )
}

/// The length of group `g` that packed boundaries give.
pub open spec fn packed_len(packed: Seq<u8>, g: int) -> nat {
    if g % 2 == 0 {
        (packed[g / 2] % 16) as nat
    } else {
        (packed[g / 2] / 16) as nat
    }
}

/// The start of group `k` that packed boundaries give.
pub open spec fn packed_start(packed: Seq<u8>, k: nat) -> nat
    decreases k,
{
    if k == 0 {
        0
    } else {
        packed_start(packed, (k - 1) as nat) + packed_len(packed, k - 1)
    }
}

/// The group boundaries that packed boundaries give.
pub open spec fn indptr_of(packed: Seq<u8>) -> Seq<usize> {
    Seq::new(9, |k: int| packed_start(packed, k as nat) as usize)
}

/// One bit per flag, the first flag lowest.
pub open spec fn padding_byte(padding: Seq<bool>) -> u8 {
    ((if padding[0] { 1int } else { 0 }) + (if padding[1] { 2int } else { 0 }) + (if padding[2] {
        4int
    } else { 0 }) + (if padding[3] { 8int } else { 0 }) + (if padding[4] { 16int } else { 0 }) + (
    if padding[5] { 32int } else { 0 }) + (if padding[6] { 64int } else { 0 }) + (if padding[7] {
        128int
    } else { 0 })) as u8
}

/// The flags of a padding byte.
pub open spec fn padding_of(byte: u8) -> Seq<bool> {
    let b1 = byte / 2;
    let b2 = b1 / 2;
    let b3 = b2 / 2;
    let b4 = b3 / 2;
    let b5 = b4 / 2;
    let b6 = b5 / 2;
    let b7 = b6 / 2;
    seq![
        byte % 2 == 1,
        b1 % 2 == 1,
        b2 % 2 == 1,
        b3 % 2 == 1,
        b4 % 2 == 1,
        b5 % 2 == 1,
        b6 % 2 == 1,
        b7 % 2 == 1,
    ]
}

/// The padded operations of all batches.
pub open spec fn all_ops(batches: Seq<BatchModel>) -> Seq<Operation>
    decreases batches.len(),
{
    if batches.len() == 0 {
        Seq::empty()
    } else {
        all_ops(batches.drop_last()) + batches.last().ops
    }
}

/// The boundaries of all batches on the wire.
pub open spec fn indptr_table(batches: Seq<BatchModel>) -> Seq<u8> {
    Seq::new(4 * batches.len(), |i: int| indptr_bytes(batches[i / 4].indptr)[i % 4])
}

/// The padding flags of all batches on the wire.
pub open spec fn padding_table(batches: Seq<BatchModel>) -> Seq<u8> {
    Seq::new(batches.len(), |i: int| padding_byte(batches[i].padding))
}

/// A block on the wire.
pub open spec fn block_bytes(batches: Seq<BatchModel>) -> Seq<u8> {
    count_bytes(all_ops(batches).len()) + (ops_bytes(all_ops(batches)) + (le_bytes(
        batches.len(),
        4,
    ) + (indptr_table(batches) + padding_table(batches))))
}

/// The first `k` batches that operations, boundaries and flags give, and how many operations they
/// hold.
pub open spec fn batches_of(
    ops: Seq<Operation>,
    indptrs: Seq<u8>,
    paddings: Seq<u8>,
    k: nat,
) -> Result<(Seq<BatchModel>, nat), DeserializationError>
    decreases k,
{
    if k == 0 {
        Ok((Seq::empty(), 0))
    } else {
        match batches_of(ops, indptrs, paddings, (k - 1) as nat) {
            Err(e) => Err(e),
            Ok((batches, used)) => {
                let indptr = indptr_of(indptrs.subrange(4 * (k - 1), 4 * k as int));
                let total = indptr[8] as nat;
                if used + total > ops.len() {
                    Err(
                        DeserializationError::InvalidValue(
                            InvalidValue::BatchOpsMismatch { batch: (k - 1) as usize },
                        ),
                    )
                } else {
                    match assembled(
                        ops.subrange(used as int, (used + total) as int),
                        indptr,
                        padding_of(paddings[k - 1]),
                    ) {
                        Err(e) => Err(DeserializationError::InvalidValue(e)),
                        Ok(batch) => Ok((batches.push(batch), used + total)),
                    }
                }
            },
        }
    }
}

/// The batches of the block at offset `at`.
pub open spec fn block_at(data: Seq<u8>, at: nat) -> Result<
    Seq<BatchModel>,
    DeserializationError,
> {
    match count_at(data, at) {
        Err(e) => Err(e),
        Ok((n, len)) => match ops_at(data, at + len, n) {
            Err(e) => Err(e),
            Ok((ops, end)) => match slice_at(data, end, 4) {
                Err(e) => Err(e),
                Ok(s) => {
                    let k = le_value(s);
                    match slice_at(data, end + 4, 4 * k) {
                        Err(e) => Err(e),
                        Ok(indptrs) => match slice_at(data, end + 4 + 4 * k, k) {
                            Err(e) => Err(e),
                            Ok(paddings) => match batches_of(ops, indptrs, paddings, k) {
                                Err(e) => Err(e),
                                Ok((batches, used)) => if used != ops.len() {
                                    Err(
                                        DeserializationError::InvalidValue(
                                            InvalidValue::BatchOpsMismatch { batch: k as usize },
                                        ),
                                    )
                                } else {
                                    Ok(batches)
                                },
                            },
                        },
                    }
                },
            },
        },
    }
}

/// Batches that can be written: each is well formed, and their number fits in four bytes.
pub open spec fn writable(batches: Seq<BatchModel>) -> bool {
    &&& batches.len() <= u32::MAX
    &&& forall|i: int| 0 <= i < batches.len() ==> (#[trigger] batches[i]).wf()
}

// LEMMAS
// ================================================================================================

pub proof fn lemma_ops_error(bytes: Seq<u8>, at: nat, k: nat, n: nat)
    requires
        k <= n,
        ops_at(bytes, at, k) is Err,
    ensures
        ops_at(bytes, at, n) == ops_at(bytes, at, k),
    decreases n - k,
{
    if k < n {
        lemma_ops_error(bytes, at, k, (n - 1) as nat);
    }
}

pub proof fn lemma_batches_error(
    ops: Seq<Operation>,
    indptrs: Seq<u8>,
    paddings: Seq<u8>,
    k: nat,
    n: nat,
)
    requires
        k <= n,
        batches_of(ops, indptrs, paddings, k) is Err,
    ensures
        batches_of(ops, indptrs, paddings, n) == batches_of(ops, indptrs, paddings, k),
    decreases n - k,
{
    if k < n {
        lemma_batches_error(ops, indptrs, paddings, k, (n - 1) as nat);
    }
}

/// Operations that were written at an offset are read there.
pub proof fn lemma_ops_round_trip(bytes: Seq<u8>, at: nat, ops: Seq<Operation>)
    requires
        forall|i: int| 0 <= i < ops.len() ==> (#[trigger] ops[i]).wf(),
        bytes.len() <= usize::MAX,
        holds_at(bytes, at as int, ops_bytes(ops)),
    ensures
        ops_at(bytes, at, ops.len()) == Ok::<(Seq<Operation>, nat), DeserializationError>(
            (ops, at + ops_bytes(ops).len()),
        ),
    decreases ops.len(),
{
    if ops.len() > 0 {
        let front = ops.drop_last();
        lemma_holds_at_split(bytes, at as int, ops_bytes(front), ops.last().bytes());
        lemma_ops_round_trip(bytes, at, front);
        law_operation_round_trip(bytes, at + ops_bytes(front).len(), ops.last());
        assert(front.push(ops.last()) =~= ops);
    } else {
        assert(ops =~= Seq::<Operation>::empty());
    }
}

pub proof fn lemma_packed_start_bound(packed: Seq<u8>, k: nat)
    requires
        k <= 8,
        packed.len() == 4,
    ensures
        packed_start(packed, k) <= 15 * k,
    decreases k,
{
    if k > 0 {
        lemma_packed_start_bound(packed, (k - 1) as nat);
    }
}

pub proof fn lemma_packed_start_monotone(packed: Seq<u8>, i: nat, j: nat)
    requires
        i <= j <= 8,
        packed.len() == 4,
    ensures
        packed_start(packed, i) <= packed_start(packed, j),
    decreases j,
{
    if i < j {
        lemma_packed_start_monotone(packed, i, (j - 1) as nat);
    }
}

pub proof fn lemma_indptr_of(packed: Seq<u8>)
    requires
        packed.len() == 4,
    ensures
        is_indptr(indptr_of(packed), indptr_of(packed)[8] as nat),
        indptr_of(packed)[8] <= 120,
{
    let indptr = indptr_of(packed);
    assert forall|k: int| 0 <= k <= 8 implies #[trigger] indptr[k] as nat == packed_start(
        packed,
        k as nat,
    ) by {
        lemma_packed_start_bound(packed, k as nat);
    }
    assert forall|i: int, j: int| 0 <= i <= j <= 8 implies indptr[i] <= indptr[j] by {
        lemma_packed_start_monotone(packed, i as nat, j as nat);
    }
    lemma_packed_start_bound(packed, 8);
}

/// In a batch whose groups have slots, no group is longer than nine operations.
pub proof fn lemma_group_len(ops: Seq<Operation>, indptr: Seq<usize>, g: nat, h: nat)
    requires
        is_indptr(indptr, ops.len()),
        g < h <= 8,
        next_slot(ops, indptr, h) is Ok,
    ensures
        0 <= group_len(indptr, g as int) <= 9,
    decreases h,
{
    assert(indptr[g as int] <= indptr[g as int + 1] <= indptr[8]);
    if g + 1 < h {
        lemma_group_len(ops, indptr, g, (h - 1) as nat);
    } else {
        assert(group_ops(ops, indptr, g as int).len() == group_len(indptr, g as int));
    }
}

pub proof fn lemma_indptr_round_trip(batch: BatchModel)
    requires
        batch.wf(),
    ensures
        indptr_of(indptr_bytes(batch.indptr)) == batch.indptr,
{
    let indptr = batch.indptr;
    let packed = indptr_bytes(indptr);
    reveal(assembled);
    assert forall|g: int| 0 <= g < 8 implies packed_len(packed, g) == #[trigger] group_len(
        indptr,
        g,
    ) by {
        let j = g / 2;
        lemma_group_len(batch.ops, indptr, (2 * j) as nat, 8);
        lemma_group_len(batch.ops, indptr, (2 * j + 1) as nat, 8);
        assert(packed[j] == group_len(indptr, 2 * j) + 16 * group_len(indptr, 2 * j + 1));
    }
    assert forall|k: int| 0 <= k <= 8 implies packed_start(packed, k as nat) == indptr[k] by {
        lemma_starts(packed, indptr, k as nat);
    }
    assert(indptr_of(packed) =~= indptr);
}

proof fn lemma_starts(packed: Seq<u8>, indptr: Seq<usize>, k: nat)
    requires
        k <= 8,
        indptr[0] == 0,
        forall|g: int| 0 <= g < 8 ==> packed_len(packed, g) == #[trigger] group_len(indptr, g),
    ensures
        packed_start(packed, k) == indptr[k as int],
    decreases k,
{
    if k > 0 {
        lemma_starts(packed, indptr, (k - 1) as nat);
        assert(packed_len(packed, k - 1) == group_len(indptr, k - 1));
    }
}

pub proof fn lemma_padding_round_trip(padding: Seq<bool>)
    requires
        padding.len() == 8,
    ensures
        padding_of(padding_byte(padding)) == padding,
{
    let b = padding_byte(padding);
    let p7: int = if padding[7] { 1 } else { 0 };
    let p6: int = if padding[6] { 1 } else { 0 };
    let p5: int = if padding[5] { 1 } else { 0 };
    let p4: int = if padding[4] { 1 } else { 0 };
    let p3: int = if padding[3] { 1 } else { 0 };
    let p2: int = if padding[2] { 1 } else { 0 };
    let p1: int = if padding[1] { 1 } else { 0 };
    let p0: int = if padding[0] { 1 } else { 0 };
    let r7 = p7;
    let r6 = p6 + 2 * r7;
    let r5 = p5 + 2 * r6;
    let r4 = p4 + 2 * r5;
    let r3 = p3 + 2 * r4;
    let r2 = p2 + 2 * r3;
    let r1 = p1 + 2 * r2;
    let r0 = p0 + 2 * r1;
    assert(b == r0);
    let b1 = b / 2;
    assert(b1 == r1);
    let b2 = b1 / 2;
    assert(b2 == r2);
    let b3 = b2 / 2;
    assert(b3 == r3);
    let b4 = b3 / 2;
    assert(b4 == r4);
    let b5 = b4 / 2;
    assert(b5 == r5);
    let b6 = b5 / 2;
    assert(b6 == r6);
    let b7 = b6 / 2;
    assert(b7 == r7);
    assert(padding_of(b) =~= padding);
}

pub proof fn lemma_all_ops_wf(batches: Seq<BatchModel>)
    requires
        forall|i: int| 0 <= i < batches.len() ==> (#[trigger] batches[i]).wf(),
    ensures
        forall|i: int| 0 <= i < all_ops(batches).len() ==> (#[trigger] all_ops(batches)[i]).wf(),
    decreases batches.len(),
{
    if batches.len() > 0 {
        let front = batches.drop_last();
        lemma_all_ops_wf(front);
        let last = batches[batches.len() - 1];
        assert(last.wf());
        assert forall|i: int| 0 <= i < all_ops(batches).len() implies (#[trigger] all_ops(
            batches,
        )[i]).wf() by {
            let n = all_ops(front).len();
            if i < n {
                assert(all_ops(batches)[i] == all_ops(front)[i]);
            } else {
                assert(all_ops(batches)[i] == last.ops[i - n]);
            }
        }
    }
}

proof fn lemma_all_ops_prefix(batches: Seq<BatchModel>, k: nat)
    requires
        k < batches.len(),
    ensures
        ({
            let used = all_ops(batches.take(k as int)).len();
            let total = batches[k as int].ops.len();
            &&& used + total <= all_ops(batches).len()
            &&& all_ops(batches).subrange(used as int, (used + total) as int)
                == batches[k as int].ops
            &&& all_ops(batches.take(k as int + 1)).len() == used + total
        }),
    decreases batches.len(),
{
    let front = batches.drop_last();
    let used = all_ops(batches.take(k as int)).len();
    let total = batches[k as int].ops.len();
    assert(batches.take(k as int + 1).drop_last() =~= batches.take(k as int));
    if k + 1 == batches.len() {
        assert(batches.take(k as int) =~= front);
        assert(batches.take(k as int + 1) =~= batches);
        assert(all_ops(batches).subrange(used as int, (used + total) as int)
            =~= batches[k as int].ops);
    } else {
        lemma_all_ops_prefix(front, k);
        assert(front.take(k as int) =~= batches.take(k as int));
        assert(front.take(k as int + 1) =~= batches.take(k as int + 1));
        assert(all_ops(batches).subrange(used as int, (used + total) as int) =~= all_ops(
            front,
        ).subrange(used as int, (used + total) as int));
    }
}

/// The table of boundaries gives those of batch `i`.
proof fn lemma_indptr_part(batches: Seq<BatchModel>, i: int)
    requires
        0 <= i < batches.len(),
    ensures
        indptr_table(batches).subrange(4 * i, 4 * (i + 1)) == indptr_bytes(batches[i].indptr),
{
    let table = indptr_table(batches);
    let part = table.subrange(4 * i, 4 * (i + 1));
    let bytes = indptr_bytes(batches[i].indptr);
    assert(part.len() == 4 && bytes.len() == 4);
    assert(part[0] == table[4 * i] && part[1] == table[4 * i + 1] && part[2] == table[4 * i + 2]
        && part[3] == table[4 * i + 3]);
    assert((4 * i) / 4 == i && (4 * i) % 4 == 0);
    assert((4 * i + 1) / 4 == i && (4 * i + 1) % 4 == 1);
    assert((4 * i + 2) / 4 == i && (4 * i + 2) % 4 == 2);
    assert((4 * i + 3) / 4 == i && (4 * i + 3) % 4 == 3);
    assert(part =~= bytes);
}

/// The tables give the boundaries and the flags of batch `i`.
proof fn lemma_table_entry(batches: Seq<BatchModel>, i: int)
    requires
        0 <= i < batches.len(),
        batches[i].wf(),
    ensures
        indptr_of(indptr_table(batches).subrange(4 * i, 4 * (i + 1))) == batches[i].indptr,
        padding_of(padding_table(batches)[i]) == batches[i].padding,
{
    lemma_indptr_round_trip(batches[i]);
    lemma_padding_round_trip(batches[i].padding);
    lemma_indptr_part(batches, i);
}

proof fn lemma_batches_round_trip(batches: Seq<BatchModel>, k: nat)
    requires
        k <= batches.len(),
        forall|i: int| 0 <= i < batches.len() ==> (#[trigger] batches[i]).wf(),
    ensures
        batches_of(all_ops(batches), indptr_table(batches), padding_table(batches), k) == Ok::<
            (Seq<BatchModel>, nat),
            DeserializationError,
        >((batches.take(k as int), all_ops(batches.take(k as int)).len())),
    decreases k,
{
    if k == 0 {
        assert(batches.take(0) =~= Seq::<BatchModel>::empty());
    } else {
        let i = k - 1;
        lemma_batches_round_trip(batches, i as nat);
        lemma_all_ops_prefix(batches, i as nat);
        let batch = batches[i];
        assert(batch.wf());
        lemma_table_entry(batches, i);
        let used = all_ops(batches.take(i)).len();
        assert(assembled(
            all_ops(batches).subrange(used as int, (used + batch.ops.len()) as int),
            indptr_of(indptr_table(batches).subrange(4 * (k - 1), 4 * k as int)),
            padding_of(padding_table(batches)[k - 1]),
        ) == Ok::<BatchModel, InvalidValue>(batch));
        assert(batches.take(i).push(batch) =~= batches.take(k as int));
    }
}

/// A block that was written at an offset is read there.
pub proof fn law_block_round_trip(data: Seq<u8>, at: nat, batches: Seq<BatchModel>)
    requires
        writable(batches),
        data.len() <= usize::MAX,
        holds_at(data, at as int, block_bytes(batches)),
    ensures
        block_at(data, at) == Ok::<Seq<BatchModel>, DeserializationError>(batches),
{
    let ops = all_ops(batches);
    let n = ops.len();
    let a = count_bytes(n);
    let b = ops_bytes(ops);
    let c = le_bytes(batches.len(), 4);
    let d = indptr_table(batches);
    let e = padding_table(batches);
    let i = at as int;
    lemma_holds_at_split(data, i, a, b + (c + (d + e)));
    lemma_holds_at_split(data, i + a.len(), b, c + (d + e));
    lemma_holds_at_split(data, i + a.len() + b.len(), c, d + e);
    lemma_holds_at_split(data, i + a.len() + b.len() + c.len(), d, e);
    lemma_ops_bytes_len(ops);
    lemma_count_bytes_len(n);
    law_count_round_trip(data, at, n);
    lemma_all_ops_wf(batches);
    lemma_ops_round_trip(data, at + a.len(), ops);
    lemma_le_bytes_len(batches.len(), 4);
    lemma_pow256_values();
    law_le_round_trip(batches.len(), 4);
    lemma_batches_round_trip(batches, batches.len());
    assert(batches.take(batches.len() as int) =~= batches);
}

/// Every operation occupies at least one byte.
pub proof fn lemma_ops_bytes_len(ops: Seq<Operation>)
    ensures
        ops_bytes(ops).len() >= ops.len(),
    decreases ops.len(),
{
    if ops.len() > 0 {
        lemma_ops_bytes_len(ops.drop_last());
        crate::operation::lemma_code_bound(ops.last());
    }
}

// WRITING
// ================================================================================================

fn write_indptr(batch: &OpBatch, out: &mut Vec<u8>)
    requires
        batch@.wf(),
    ensures
        final(out)@ == old(out)@ + indptr_bytes(batch@.indptr),
{
    let ghost before = out@;
    let mut j: usize = 0;
    assert(indptr_bytes(batch@.indptr).take(0) =~= Seq::<u8>::empty());
    while j < 4
        invariant
            j <= 4,
            batch@.wf(),
            out@ == before + indptr_bytes(batch@.indptr).take(j as int),
        decreases 4 - j,
    {
        proof {
            reveal(assembled);
            lemma_group_len(batch@.ops, batch@.indptr, (2 * j) as nat, 8);
            lemma_group_len(batch@.ops, batch@.indptr, (2 * j + 1) as nat, 8);
        }
        let low: usize = batch.indptr[2 * j + 1] - batch.indptr[2 * j];
        let high: usize = batch.indptr[2 * j + 2] - batch.indptr[2 * j + 1];
        out.push((low + 16 * high) as u8);
        j += 1;
        assert(out@ =~= before + indptr_bytes(batch@.indptr).take(j as int));
    }
    assert(indptr_bytes(batch@.indptr).take(4) =~= indptr_bytes(batch@.indptr));
}

fn pack_padding(padding: &[bool; 8]) -> (byte: u8)
    ensures
        byte == padding_byte(padding@),
{
    let p0: u8 = if padding[0] { 1 } else { 0 };
    let p1: u8 = if padding[1] { 2 } else { 0 };
    let p2: u8 = if padding[2] { 4 } else { 0 };
    let p3: u8 = if padding[3] { 8 } else { 0 };
    let p4: u8 = if padding[4] { 16 } else { 0 };
    let p5: u8 = if padding[5] { 32 } else { 0 };
    let p6: u8 = if padding[6] { 64 } else { 0 };
    let p7: u8 = if padding[7] { 128 } else { 0 };
    p0 + p1 + p2 + p3 + p4 + p5 + p6 + p7
}

/// Appends a basic block.
pub fn write_block(batches: &Vec<OpBatch>, out: &mut Vec<u8>)
    requires
        writable(models(batches@)),
        all_ops(models(batches@)).len() <= usize::MAX,
    ensures
        final(out)@ == old(out)@ + block_bytes(models(batches@)),
{
    let ghost before = out@;
    let ghost bs = models(batches@);
    let mut total: usize = 0;
    let mut i: usize = 0;
    assert(bs.take(0) =~= Seq::<BatchModel>::empty());
    while i < batches.len()
        invariant
            i <= batches.len(),
            bs == models(batches@),
            total == all_ops(bs.take(i as int)).len(),
            all_ops(bs).len() <= usize::MAX,
        decreases batches.len() - i,
    {
        proof {
            lemma_all_ops_prefix(bs, i as nat);
        }
        total = total + batches[i].ops.len();
        i += 1;
    }
    assert(bs.take(i as int) =~= bs);
    write_count(out, total as u64);
    let ghost head = out@;
    let mut i: usize = 0;
    assert(ops_bytes(all_ops(bs.take(0))) =~= Seq::<u8>::empty());
    while i < batches.len()
        invariant
            i <= batches.len(),
            bs == models(batches@),
            out@ == head + ops_bytes(all_ops(bs.take(i as int))),
        decreases batches.len() - i,
    {
        let ops = &batches[i].ops;
        let ghost done = all_ops(bs.take(i as int));
        let mut j: usize = 0;
        assert(done + ops@.take(0) =~= done);
        while j < ops.len()
            invariant
                j <= ops.len(),
                out@ == head + ops_bytes(done + ops@.take(j as int)),
            decreases ops.len() - j,
        {
            let ghost earlier = out@;
            ops[j].write_into(out);
            proof {
                let next = done + ops@.take(j + 1);
                assert(next.drop_last() =~= done + ops@.take(j as int));
                assert(next.last() == ops@[j as int]);
                assert(out@ =~= head + ops_bytes(next));
            }
            j += 1;
        }
        proof {
            assert(ops@.take(j as int) =~= ops@);
            assert(bs.take(i + 1).drop_last() =~= bs.take(i as int));
            assert(bs.take(i + 1).last() == bs[i as int]);
        }
        i += 1;
    }
    assert(bs.take(i as int) =~= bs);
    write_le(out, batches.len() as u64, 4);
    let ghost middle = out@;
    let mut i: usize = 0;
    assert(indptr_table(bs.take(0)) =~= Seq::<u8>::empty());
    while i < batches.len()
        invariant
            i <= batches.len(),
            bs == models(batches@),
            writable(bs),
            out@ == middle + indptr_table(bs.take(i as int)),
        decreases batches.len() - i,
    {
        assert(bs[i as int].wf());
        write_indptr(&batches[i], out);
        assert(indptr_table(bs.take(i + 1)) =~= indptr_table(bs.take(i as int)) + indptr_bytes(
            bs[i as int].indptr,
        ));
        assert(out@ =~= middle + indptr_table(bs.take(i + 1)));
        i += 1;
    }
    assert(bs.take(i as int) =~= bs);
    let ghost tail = out@;
    let mut i: usize = 0;
    assert(padding_table(bs.take(0)) =~= Seq::<u8>::empty());
    while i < batches.len()
        invariant
            i <= batches.len(),
            bs == models(batches@),
            out@ == tail + padding_table(bs.take(i as int)),
        decreases batches.len() - i,
    {
        out.push(pack_padding(&batches[i].padding));
        assert(padding_table(bs.take(i + 1)) =~= padding_table(bs.take(i as int)).push(
            padding_byte(bs[i as int].padding),
        ));
        assert(out@ =~= tail + padding_table(bs.take(i + 1)));
        i += 1;
    }
    assert(bs.take(i as int) =~= bs);
    assert(out@ =~= before + block_bytes(bs));
}

// READING
// ================================================================================================

fn unpack_indptr(packed: &[u8]) -> (indptr: [usize; 9])
    requires
        packed.len() == 4,
    ensures
        indptr@ == indptr_of(packed@),
        is_indptr(indptr@, indptr@[8] as nat),
        indptr@[8] <= 120,
{
    let mut indptr = [0usize;9];
    let mut k: usize = 0;
    while k < 8
        invariant
            k <= 8,
            packed.len() == 4,
            forall|i: int| 0 <= i <= k ==> indptr@[i] == packed_start(packed@, i as nat),
        decreases 8 - k,
    {
        let len: u8 = if k % 2 == 0 {
            packed[k / 2] % 16
        } else {
            packed[k / 2] / 16
        };
        proof {
            lemma_packed_start_bound(packed@, k as nat);
            assert(packed_start(packed@, (k + 1) as nat) == packed_start(packed@, k as nat)
                + packed_len(packed@, k as int));
        }
        indptr[k + 1] = indptr[k] + len as usize;
        k += 1;
    }
    assert(indptr@ =~= indptr_of(packed@));
    proof {
        lemma_indptr_of(packed@);
    }
    indptr
}

fn unpack_padding(byte: u8) -> (padding: [bool; 8])
    ensures
        padding@ == padding_of(byte),
{
    let b1: u8 = byte / 2;
    let b2: u8 = b1 / 2;
    let b3: u8 = b2 / 2;
    let b4: u8 = b3 / 2;
    let b5: u8 = b4 / 2;
    let b6: u8 = b5 / 2;
    let b7: u8 = b6 / 2;
    let padding = [
        byte % 2 == 1,
        b1 % 2 == 1,
        b2 % 2 == 1,
        b3 % 2 == 1,
        b4 % 2 == 1,
        b5 % 2 == 1,
        b6 % 2 == 1,
        b7 % 2 == 1,
    ];
    assert(padding@ =~= padding_of(byte));
    padding
}

fn copy_ops(ops: &Vec<Operation>, from: usize, to: usize) -> (part: Vec<Operation>)
    requires
        from <= to <= ops.len(),
    ensures
        part@ == ops@.subrange(from as int, to as int),
{
    let mut part: Vec<Operation> = Vec::new();
    let mut i: usize = from;
    assert(ops@.subrange(from as int, from as int) =~= Seq::<Operation>::empty());
    while i < to
        invariant
            from <= i <= to <= ops.len(),
            part@ == ops@.subrange(from as int, i as int),
        decreases to - i,
    {
        part.push(ops[i]);
        assert(ops@.subrange(from as int, i + 1) =~= ops@.subrange(from as int, i as int).push(
            ops@[i as int],
        ));
        i += 1;
    }
    part
}

fn read_ops_at(data: &[u8], offset: &mut usize, n: usize) -> (res: Result<
    Vec<Operation>,
    DeserializationError,
>)
    requires
        *old(offset) <= data.len(),
    ensures
        match ops_at(data@, *old(offset) as nat, n as nat) {
            Ok((ops, end)) => res is Ok && res->Ok_0@ == ops && *final(offset) == end
                && *final(offset) <= data.len(),
            Err(e) => res == Err::<Vec<Operation>, DeserializationError>(e),
        },
{
    let ghost start = *offset as nat;
    let mut ops: Vec<Operation> = Vec::new();
    let mut i: usize = 0;
    while i < n
        invariant
            i <= n,
            start == *old(offset),
            *offset <= data.len(),
            ops_at(data@, start, i as nat) == Ok::<(Seq<Operation>, nat), DeserializationError>(
                (ops@, *offset as nat),
            ),
        decreases n - i,
    {
        match read_operation_at(data, offset) {
            Ok(op) => ops.push(op),
            Err(e) => {
                proof {
                    lemma_ops_error(data@, start, (i + 1) as nat, n as nat);
                }
                return Err(e);
            },
        }
        i += 1;
    }
    Ok(ops)
}

fn assemble_batches(ops: &Vec<Operation>, indptrs: &[u8], paddings: &[u8]) -> (res: Result<
    (Vec<OpBatch>, usize),
    DeserializationError,
>)
    requires
        indptrs@.len() == 4 * paddings@.len(),
    ensures
        match batches_of(ops@, indptrs@, paddings@, paddings@.len()) {
            Ok((batches, used)) => res is Ok && models(res->Ok_0.0@) == batches && res->Ok_0.1
                == used && used <= ops@.len(),
            Err(e) => res == Err::<(Vec<OpBatch>, usize), DeserializationError>(e),
        },
{
    let n: usize = paddings.len();
    let mut batches: Vec<OpBatch> = Vec::new();
    let mut used: usize = 0;
    let mut k: usize = 0;
    assert(models(batches@) =~= Seq::<BatchModel>::empty());
    while k < n
        invariant
            k <= n == paddings@.len(),
            indptrs@.len() == 4 * n,
            used <= ops@.len(),
            batches_of(ops@, indptrs@, paddings@, k as nat) == Ok::<
                (Seq<BatchModel>, nat),
                DeserializationError,
            >((models(batches@), used as nat)),
        decreases n - k,
    {
        proof {
            if batches_of(ops@, indptrs@, paddings@, (k + 1) as nat) is Err {
                lemma_batches_error(ops@, indptrs@, paddings@, (k + 1) as nat, n as nat);
            }
        }
        let _size: usize = indptrs.len();
        let packed = vstd::slice::slice_subrange(indptrs, 4 * k, 4 * k + 4);
        let indptr = unpack_indptr(packed);
        let total: usize = indptr[8];
        if total > ops.len() - used {
            return Err(
                DeserializationError::InvalidValue(InvalidValue::BatchOpsMismatch { batch: k }),
            );
        }
        let part = copy_ops(ops, used, used + total);
        let ghost before = models(batches@);
        match OpBatch::assemble(part, indptr, unpack_padding(paddings[k])) {
            Err(e) => {
                return Err(DeserializationError::InvalidValue(e));
            },
            Ok(batch) => {
                batches.push(batch);
                assert(models(batches@) =~= before.push(batch@));
            },
        }
        used = used + total;
        k += 1;
    }
    Ok((batches, used))
}

/// Reads the basic block at offset `at`.
pub fn read_block_at(data: &[u8], at: usize) -> (res: Result<Vec<OpBatch>, DeserializationError>)
    ensures
        match block_at(data@, at as nat) {
            Ok(batches) => res is Ok && models(res->Ok_0@) == batches,
            Err(e) => res == Err::<Vec<OpBatch>, DeserializationError>(e),
        },
{
    let mut offset: usize = at;
    let n: usize = match read_usize_at(data, &mut offset) {
        Ok(n) => n,
        Err(e) => {
            return Err(e);
        },
    };
    let ops = match read_ops_at(data, &mut offset, n) {
        Ok(ops) => ops,
        Err(e) => {
            return Err(e);
        },
    };
    let count = match read_slice_at(data, &mut offset, 4) {
        Ok(s) => s,
        Err(e) => {
            return Err(e);
        },
    };
    let k: u64 = le_integer(count);
    proof {
        lemma_le_value_bound(count@);
        lemma_pow256_values();
    }
    if 4 * k > usize::MAX as u64 {
        return Err(DeserializationError::InvalidValue(InvalidValue::OffsetOverflow));
    }
    let indptrs = match read_slice_at(data, &mut offset, (4 * k) as usize) {
        Ok(s) => s,
        Err(e) => {
            return Err(e);
        },
    };
    let paddings = match read_slice_at(data, &mut offset, k as usize) {
        Ok(s) => s,
        Err(e) => {
            return Err(e);
        },
    };
    match assemble_batches(&ops, indptrs, paddings) {
        Err(e) => Err(e),
        Ok((batches, used)) => {
            if used != ops.len() {
                Err(
                    DeserializationError::InvalidValue(
                        InvalidValue::BatchOpsMismatch { batch: k as usize },
                    ),
                )
            } else {
                Ok(batches)
            }
        },
    }
}

} // verus!
