//! Operation batches: up to eight groups of operations, hashed together.
//!
//! A group packs up to nine operation codes into one field element. The immediate values of a
//! group follow it, one per slot. `indptr` says where in the operations each group starts; a slot
//! that holds an immediate has no operations.

use vstd::prelude::*;

use crate::error::InvalidValue;
use crate::felt::Felt;
use crate::operation::Operation;

verus! {

/// Number of groups in a batch.
pub const BATCH_SIZE: usize = 8;

/// Number of operations in a group.
pub const GROUP_SIZE: usize = 9;

/// A batch of operations.
#[derive(Clone, PartialEq, Eq, Debug)]
pub struct OpBatch {
    pub ops: Vec<Operation>,
    pub indptr: [usize; 9],
    pub padding: [bool; 8],
    pub groups: [Felt; 8],
    pub num_groups: usize,
}

/// The contents of a batch.
pub ghost struct BatchModel {
    pub ops: Seq<Operation>,
    pub indptr: Seq<usize>,
    pub padding: Seq<bool>,
    pub groups: Seq<Felt>,
    pub num_groups: usize,
}

// MODEL
// ================================================================================================

/// `128` to the power `k`.
pub open spec fn pow128(k: nat) -> nat
    decreases k,
{
    if k == 0 {
        1
    } else {
        128 * pow128((k - 1) as nat)
    }
}

/// The operation codes of a group as one integer, first code lowest.
pub open spec fn packed(ops: Seq<Operation>) -> nat
    decreases ops.len(),
{
    if ops.len() == 0 {
        0
    } else {
        packed(ops.drop_last()) + ops.last().code() as nat * pow128((ops.len() - 1) as nat)
    }
}

/// The immediate values of a group, in the order of their operations.
pub open spec fn immediates(ops: Seq<Operation>) -> Seq<Felt>
    decreases ops.len(),
{
    if ops.len() == 0 {
        Seq::empty()
    } else {
        match ops.last().immediate() {
            Some(v) => immediates(ops.drop_last()).push(v),
            None => immediates(ops.drop_last()),
        }
    }
}

/// Group boundaries that cover `total` operations in order.
pub open spec fn is_indptr(indptr: Seq<usize>, total: nat) -> bool {
    &&& indptr.len() == 9
    &&& indptr[0] == 0
    &&& indptr[8] == total
    &&& forall|i: int, j: int| 0 <= i <= j <= 8 ==> indptr[i] <= indptr[j]
}

/// The operations of group `g`.
pub open spec fn group_ops(ops: Seq<Operation>, indptr: Seq<usize>, g: int) -> Seq<Operation> {
    ops.subrange(indptr[g] as int, indptr[g + 1] as int)
}

/// The first slot behind the groups below `g` and their immediates.
///
/// A group stands in the first free slot, holds at most nine operations, and its immediates fit
/// in the slots behind it.
pub open spec fn next_slot(ops: Seq<Operation>, indptr: Seq<usize>, g: nat) -> Result<
    nat,
    InvalidValue,
>
    decreases g,
{
    if g == 0 {
        Ok(0)
    } else {
        match next_slot(ops, indptr, (g - 1) as nat) {
            Err(e) => Err(e),
            Ok(next) => {
                let group = group_ops(ops, indptr, g - 1);
                if group.len() == 0 {
                    Ok(next)
                } else if g - 1 < next {
                    Err(InvalidValue::PushImmediateConflict { group: (g - 1) as usize })
                } else if g - 1 > next {
                    Err(InvalidValue::GroupGap { group: (g - 1) as usize })
                } else if group.len() > GROUP_SIZE {
                    Err(InvalidValue::GroupTooLong { group: (g - 1) as usize })
                } else if g + immediates(group).len() > BATCH_SIZE {
                    Err(InvalidValue::PushImmediateConflict { group: (g - 1) as usize })
                } else {
                    Ok(g + immediates(group).len())
                }
            },
        }
    }
}

/// `slots` with `values` from slot `at` on.
pub open spec fn with_values(slots: Seq<Felt>, at: int, values: Seq<Felt>) -> Seq<Felt> {
    Seq::new(
        slots.len(),
        |i: int|
            if at <= i < at + values.len() {
                values[i - at]
            } else {
                slots[i]
            },
    )
}

/// The slots filled by the groups below `g`; the others hold zero.
pub open spec fn slots(ops: Seq<Operation>, indptr: Seq<usize>, g: nat) -> Seq<Felt>
    decreases g,
{
    if g == 0 {
        Seq::new(8, |i: int| Felt { value: 0 })
    } else {
        let below = slots(ops, indptr, (g - 1) as nat);
        let group = group_ops(ops, indptr, g - 1);
        if group.len() == 0 {
            below
        } else {
            with_values(
                below,
                g - 1,
                seq![Felt { value: packed(group) as u64 }] + immediates(group),
            )
        }
    }
}

/// The batch that operations, group boundaries and padding flags determine.
#[verifier::opaque]
pub open spec fn assembled(
    ops: Seq<Operation>,
    indptr: Seq<usize>,
    padding: Seq<bool>,
) -> Result<BatchModel, InvalidValue> {
    match next_slot(ops, indptr, 8) {
        Err(e) => Err(e),
        Ok(next) => Ok(
            BatchModel {
                ops,
                indptr,
                padding,
                groups: slots(ops, indptr, 8),
                num_groups: next as usize,
            },
        ),
    }
}

impl BatchModel {
    /// A batch is well formed when its operations are, and its groups are those that its
    /// operations and boundaries determine.
    pub open spec fn wf(self) -> bool {
        &&& is_indptr(self.indptr, self.ops.len())
        &&& self.padding.len() == 8
        &&& forall|i: int| 0 <= i < self.ops.len() ==> (#[trigger] self.ops[i]).wf()
        &&& assembled(self.ops, self.indptr, self.padding) == Ok::<BatchModel, InvalidValue>(self)
    }

    /// The operations of the batch without padding.
    pub open spec fn raw_ops(self) -> Seq<Operation> {
        raw_below(self.ops, self.indptr, self.padding, 8)
    }
}

/// The operations of group `g` without the padding operation at its end.
pub open spec fn raw_group(
    ops: Seq<Operation>,
    indptr: Seq<usize>,
    padding: Seq<bool>,
    g: int,
) -> Seq<Operation> {
    let group = group_ops(ops, indptr, g);
    if padding[g] && group.len() > 0 {
        group.drop_last()
    } else {
        group
    }
}

/// The operations of the groups below `g` without padding.
pub open spec fn raw_below(
    ops: Seq<Operation>,
    indptr: Seq<usize>,
    padding: Seq<bool>,
    g: nat,
) -> Seq<Operation>
    decreases g,
{
    if g == 0 {
        Seq::empty()
    } else {
        raw_below(ops, indptr, padding, (g - 1) as nat) + raw_group(ops, indptr, padding, g - 1)
    }
}

impl OpBatch {
    pub open spec fn view(&self) -> BatchModel {
        BatchModel {
            ops: self.ops@,
            indptr: self.indptr@,
            padding: self.padding@,
            groups: self.groups@,
            num_groups: self.num_groups,
        }
    }
}

// LEMMAS
// ================================================================================================

pub proof fn lemma_pow128_values()
    ensures
        pow128(0) == 1,
        pow128(1) == 0x80,
        pow128(2) == 0x4000,
        pow128(3) == 0x20_0000,
        pow128(4) == 0x1000_0000,
        pow128(5) == 0x8_0000_0000,
        pow128(6) == 0x400_0000_0000,
        pow128(7) == 0x2_0000_0000_0000,
        pow128(8) == 0x100_0000_0000_0000,
        pow128(9) == 0x8000_0000_0000_0000,
{
    reveal_with_fuel(pow128, 10);
}

pub proof fn lemma_packed_bound(ops: Seq<Operation>)
    ensures
        packed(ops) < pow128(ops.len()),
    decreases ops.len(),
{
    if ops.len() > 0 {
        lemma_packed_bound(ops.drop_last());
        let p = pow128((ops.len() - 1) as nat);
        let c = ops.last().code() as nat;
        crate::operation::lemma_code_bound(ops.last());
        assert(c <= 127);
        assert(c * p <= 127 * p) by (nonlinear_arith)
            requires
                c <= 127,
        ;
    }
}

pub proof fn lemma_immediates_len(ops: Seq<Operation>)
    ensures
        immediates(ops).len() <= ops.len(),
        (forall|i: int| 0 <= i < ops.len() ==> (#[trigger] ops[i]).wf()) ==> forall|i: int|
            0 <= i < immediates(ops).len() ==> (#[trigger] immediates(ops)[i]).wf(),
    decreases ops.len(),
{
    if ops.len() > 0 {
        lemma_immediates_len(ops.drop_last());
    }
}

/// `next_slot` reads nothing but the groups below `g`.
pub proof fn lemma_next_slot_groups(
    ops1: Seq<Operation>,
    indptr1: Seq<usize>,
    ops2: Seq<Operation>,
    indptr2: Seq<usize>,
    g: nat,
)
    requires
        forall|k: int|
            0 <= k < g ==> #[trigger] group_ops(ops1, indptr1, k) == group_ops(ops2, indptr2, k),
    ensures
        next_slot(ops1, indptr1, g) == next_slot(ops2, indptr2, g),
    decreases g,
{
    if g > 0 {
        lemma_next_slot_groups(ops1, indptr1, ops2, indptr2, (g - 1) as nat);
        assert(group_ops(ops1, indptr1, g - 1) == group_ops(ops2, indptr2, g - 1));
    }
}

/// A refusal of the groups below `g` is a refusal of the whole batch.
pub proof fn lemma_next_slot_error(ops: Seq<Operation>, indptr: Seq<usize>, g: nat, h: nat)
    requires
        g <= h,
        next_slot(ops, indptr, g) is Err,
    ensures
        next_slot(ops, indptr, h) == next_slot(ops, indptr, g),
    decreases h - g,
{
    if g < h {
        lemma_next_slot_error(ops, indptr, g, (h - 1) as nat);
    }
}

/// Empty groups take no slot.
pub proof fn lemma_next_slot_empty(ops: Seq<Operation>, indptr: Seq<usize>, g: nat, h: nat)
    requires
        g <= h,
        forall|k: int| g <= k < h ==> (#[trigger] group_ops(ops, indptr, k)).len() == 0,
    ensures
        next_slot(ops, indptr, h) == next_slot(ops, indptr, g),
    decreases h - g,
{
    if g < h {
        assert(group_ops(ops, indptr, h - 1).len() == 0);
        lemma_next_slot_empty(ops, indptr, g, (h - 1) as nat);
    }
}

pub proof fn lemma_next_slot_bound(ops: Seq<Operation>, indptr: Seq<usize>, g: nat)
    requires
        g <= 8,
    ensures
        next_slot(ops, indptr, g) is Ok ==> next_slot(ops, indptr, g)->Ok_0 <= 8,
    decreases g,
{
    if g > 0 {
        lemma_next_slot_bound(ops, indptr, (g - 1) as nat);
    }
}

pub proof fn lemma_slots_len(ops: Seq<Operation>, indptr: Seq<usize>, g: nat)
    ensures
        slots(ops, indptr, g).len() == 8,
    decreases g,
{
    if g > 0 {
        lemma_slots_len(ops, indptr, (g - 1) as nat);
    }
}

/// The slots of well-formed operations hold canonical elements.
pub proof fn lemma_slots_wf(ops: Seq<Operation>, indptr: Seq<usize>, g: nat)
    requires
        g <= 8,
        is_indptr(indptr, ops.len()),
        forall|i: int| 0 <= i < ops.len() ==> (#[trigger] ops[i]).wf(),
        next_slot(ops, indptr, g) is Ok,
    ensures
        forall|i: int| 0 <= i < 8 ==> (#[trigger] slots(ops, indptr, g)[i]).wf(),
    decreases g,
{
    if g > 0 {
        lemma_slots_wf(ops, indptr, (g - 1) as nat);
        lemma_slots_len(ops, indptr, (g - 1) as nat);
        let group = group_ops(ops, indptr, g - 1);
        if group.len() > 0 {
            assert(indptr[g as int] <= indptr[8]);
            assert(forall|i: int| 0 <= i < group.len() ==> (#[trigger] group[i]) == ops[indptr[g
                - 1] + i]);
            lemma_packed_bound(group);
            lemma_pow128_values();
            lemma_immediates_len(group);
            lemma_pow128_monotone(group.len(), 9);
        }
    }
}

pub proof fn lemma_pow128_monotone(a: nat, b: nat)
    requires
        a <= b,
    ensures
        pow128(a) <= pow128(b),
        pow128(a) >= 1,
    decreases b,
{
    if a < b {
        lemma_pow128_monotone(a, (b - 1) as nat);
    } else if b > 0 {
        lemma_pow128_monotone((a - 1) as nat, (b - 1) as nat);
    }
}

// ASSEMBLING
// ================================================================================================

/// Packs the operation codes of `ops[from..to]`.
fn pack_group(ops: &Vec<Operation>, from: usize, to: usize) -> (value: u64)
    requires
        from <= to <= ops.len(),
        to - from <= 9,
    ensures
        value == packed(ops@.subrange(from as int, to as int)),
        value < 0x8000_0000_0000_0000,
{
    let mut value: u64 = 0;
    let mut scale: u64 = 1;
    let mut i: usize = from;
    proof {
        lemma_pow128_values();
    }
    assert(ops@.subrange(from as int, from as int).len() == 0);
    while i < to
        invariant
            from <= i <= to <= ops.len(),
            to - from <= 9,
            value == packed(ops@.subrange(from as int, i as int)),
            i < to ==> scale == pow128((i - from) as nat),
        decreases to - i,
    {
        let code: u8 = ops[i].op_code();
        proof {
            let before = ops@.subrange(from as int, i as int);
            let after = ops@.subrange(from as int, i + 1);
            assert(after.drop_last() =~= before);
            lemma_packed_bound(after);
            lemma_pow128_monotone(after.len(), 9);
            lemma_pow128_values();
            assert(packed(after) == packed(before) + code as nat * pow128(before.len()));
        }
        value = value + code as u64 * scale;
        i += 1;
        if i < to {
            proof {
                lemma_pow128_monotone((i - from) as nat, 8);
                lemma_pow128_values();
            }
            scale = scale * 128;
        }
    }
    proof {
        lemma_packed_bound(ops@.subrange(from as int, to as int));
        lemma_pow128_monotone((to - from) as nat, 9);
        lemma_pow128_values();
    }
    value
}

impl OpBatch {
    /// Assembles a batch from its operations, group boundaries and padding flags.
    ///
    /// Refuses boundaries under which a group does not stand in the first free slot, is too long,
    /// or leaves no room for its immediates.
    pub fn assemble(ops: Vec<Operation>, indptr: [usize; 9], padding: [bool; 8]) -> (res: Result<
        OpBatch,
        InvalidValue,
    >)
        requires
            is_indptr(indptr@, ops@.len()),
        ensures
            match assembled(ops@, indptr@, padding@) {
                Ok(batch) => res is Ok && res->Ok_0@ == batch,
                Err(e) => res == Err::<OpBatch, InvalidValue>(e),
            },
    {
        proof {
            reveal(assembled);
        }
        let mut groups = [Felt { value: 0 };8];
        let mut next: usize = 0;
        let mut g: usize = 0;
        assert(groups@ =~= slots(ops@, indptr@, 0));
        while g < 8
            invariant
                g <= 8,
                next <= 8,
                is_indptr(indptr@, ops@.len()),
                next_slot(ops@, indptr@, g as nat) == Ok::<nat, InvalidValue>(next as nat),
                groups@ == slots(ops@, indptr@, g as nat),
            decreases 8 - g,
        {
            assert(indptr@[g as int] <= indptr@[g + 1] <= indptr@[8]);
            let start: usize = indptr[g];
            let end: usize = indptr[g + 1];
            let ghost group = group_ops(ops@, indptr@, g as int);
            let ghost below = groups@;
            proof {
                reveal(assembled);
                if next_slot(ops@, indptr@, (g + 1) as nat) is Err {
                    lemma_next_slot_error(ops@, indptr@, (g + 1) as nat, 8);
                }
                lemma_next_slot_bound(ops@, indptr@, (g + 1) as nat);
            }
            if start < end {
                if g < next {
                    return Err(InvalidValue::PushImmediateConflict { group: g });
                }
                if g > next {
                    return Err(InvalidValue::GroupGap { group: g });
                }
                if end - start > GROUP_SIZE {
                    return Err(InvalidValue::GroupTooLong { group: g });
                }
                let value: u64 = pack_group(&ops, start, end);
                groups[g] = Felt { value };
                next = g + 1;
                let mut i: usize = start;
                assert(ops@.subrange(start as int, start as int).len() == 0);
                assert(groups@ =~= with_values(
                    below,
                    g as int,
                    seq![Felt { value }] + immediates(ops@.subrange(start as int, i as int)),
                ));
                while i < end
                    invariant
                        g < next <= 8,
                        start <= i <= end <= ops@.len(),
                        below.len() == 8,
                        g < 8,
                        group == ops@.subrange(start as int, end as int),
                        next == g + 1 + immediates(ops@.subrange(start as int, i as int)).len(),
                        groups@ == with_values(
                            below,
                            g as int,
                            seq![Felt { value }] + immediates(
                                ops@.subrange(start as int, i as int),
                            ),
                        ),
                        next_slot(ops@, indptr@, (g + 1) as nat) == (if g + 1 + immediates(
                            group,
                        ).len() > 8 {
                            Err::<nat, InvalidValue>(
                                InvalidValue::PushImmediateConflict { group: g },
                            )
                        } else {
                            Ok((g + 1 + immediates(group).len()) as nat)
                        }),
                        next_slot(ops@, indptr@, (g + 1) as nat) is Err ==> next_slot(
                            ops@,
                            indptr@,
                            8,
                        ) == next_slot(ops@, indptr@, (g + 1) as nat),
                    decreases end - i,
                {
                    proof {
                        reveal(assembled);
                        let after = ops@.subrange(start as int, i + 1);
                        assert(after.drop_last() =~= ops@.subrange(start as int, i as int));
                        assert(after.last() == ops@[i as int]);
                        lemma_immediates_prefix(group, after.len());
                        assert(group.take(after.len() as int) =~= after);
                    }
                    let imm = ops[i].imm_value();
                    if let Some(v) = imm {
                        if next >= 8 {
                            return Err(InvalidValue::PushImmediateConflict { group: g });
                        }
                        groups[next] = v;
                        next = next + 1;
                        assert(groups@ =~= with_values(
                            below,
                            g as int,
                            seq![Felt { value }] + immediates(
                                ops@.subrange(start as int, i + 1),
                            ),
                        ));
                    }
                    i += 1;
                }
            }
            g += 1;
        }
        Ok(OpBatch { ops, indptr, padding, groups, num_groups: next })
    }
}

/// The immediates of a prefix are at most those of the whole.
pub proof fn lemma_immediates_prefix(ops: Seq<Operation>, k: nat)
    requires
        k <= ops.len(),
    ensures
        immediates(ops.take(k as int)).len() <= immediates(ops).len(),
    decreases ops.len(),
{
    if k < ops.len() {
        lemma_immediates_prefix(ops.drop_last(), k);
        assert(ops.drop_last().take(k as int) =~= ops.take(k as int));
    } else {
        assert(ops.take(k as int) =~= ops);
    }
}

/// `raw_below` reads nothing but the groups and flags below `g`.
pub proof fn lemma_raw_below_groups(
    ops1: Seq<Operation>,
    indptr1: Seq<usize>,
    padding1: Seq<bool>,
    ops2: Seq<Operation>,
    indptr2: Seq<usize>,
    padding2: Seq<bool>,
    g: nat,
)
    requires
        forall|k: int|
            0 <= k < g ==> #[trigger] group_ops(ops1, indptr1, k) == group_ops(ops2, indptr2, k),
        forall|k: int| 0 <= k < g ==> #[trigger] padding1[k] == padding2[k],
    ensures
        raw_below(ops1, indptr1, padding1, g) == raw_below(ops2, indptr2, padding2, g),
    decreases g,
{
    if g > 0 {
        lemma_raw_below_groups(ops1, indptr1, padding1, ops2, indptr2, padding2, (g - 1) as nat);
        assert(group_ops(ops1, indptr1, g - 1) == group_ops(ops2, indptr2, g - 1));
        assert(padding1[g - 1] == padding2[g - 1]);
    }
}

/// Empty groups add no operation.
pub proof fn lemma_raw_below_empty(
    ops: Seq<Operation>,
    indptr: Seq<usize>,
    padding: Seq<bool>,
    g: nat,
    h: nat,
)
    requires
        g <= h,
        forall|k: int| g <= k < h ==> (#[trigger] group_ops(ops, indptr, k)).len() == 0,
    ensures
        raw_below(ops, indptr, padding, h) == raw_below(ops, indptr, padding, g),
    decreases h - g,
{
    if g < h {
        lemma_raw_below_empty(ops, indptr, padding, g, (h - 1) as nat);
        assert(group_ops(ops, indptr, h - 1).len() == 0);
        assert(raw_below(ops, indptr, padding, h) =~= raw_below(ops, indptr, padding, g));
    }
}

// BATCHING
// ================================================================================================

/// A batch that is being filled: its operations, where its groups start up to the current one,
/// which groups end with padding, and the slot behind the current group and its immediates.
pub ghost struct Filling {
    pub ops: Seq<Operation>,
    pub starts: Seq<usize>,
    pub padding: Seq<bool>,
    pub group: nat,
    pub next: nat,
}

impl Filling {
    pub open spec fn nothing() -> Filling {
        Filling {
            ops: Seq::empty(),
            starts: seq![0usize],
            padding: Seq::new(8, |k: int| false),
            group: 0,
            next: 1,
        }
    }

    /// The length of the current group.
    pub open spec fn len(self) -> int {
        self.ops.len() - self.starts.last()
    }

    /// The current group has no room for an operation: a group holds nine operations, and an
    /// operation with an immediate is not the last of them.
    pub open spec fn is_full_for(self, op: Operation) -> bool {
        self.len() == 9 || self.len() == 8 && op.immediate() is Some
    }

    /// The batch has room for an operation and its immediate, in eight slots.
    pub open spec fn fits(self, op: Operation) -> bool {
        if op.immediate() is Some {
            if self.len() < 8 {
                self.next < 8
            } else {
                self.next < 7
            }
        } else {
            self.len() < 9 || self.next < 8
        }
    }

    pub open spec fn pushed(self, op: Operation) -> Filling {
        Filling {
            ops: self.ops.push(op),
            next: if op.immediate() is Some {
                self.next + 1
            } else {
                self.next
            },
            ..self
        }
    }

    /// The current group is complete: padding follows an operation with an immediate.
    pub open spec fn closed(self) -> Filling {
        if self.ops.last().immediate() is Some {
            Filling {
                ops: self.ops.push(Operation::Noop),
                padding: self.padding.update(self.group as int, true),
                ..self
            }
        } else {
            self
        }
    }

    /// Where the first `n` groups start, if none followed the current one.
    pub open spec fn bounds(self, n: nat) -> Seq<usize> {
        Seq::new(
            n,
            |k: int|
                if k <= self.group {
                    self.starts[k]
                } else {
                    self.ops.len() as usize
                },
        )
    }

    /// A group starts in the next slot.
    pub open spec fn reopened(self) -> Filling {
        Filling {
            starts: self.bounds(self.next + 1),
            group: self.next,
            next: self.next + 1,
            ..self
        }
    }

    /// An operation was added, in a new group where the current one has no room for it.
    pub open spec fn with(self, op: Operation) -> Filling {
        if self.is_full_for(op) {
            self.closed().reopened().pushed(op)
        } else {
            self.pushed(op)
        }
    }

    /// A group of nothing but padding was added.
    pub open spec fn padded(self) -> Filling {
        let fresh = self.reopened();
        Filling {
            ops: fresh.ops.push(Operation::Noop),
            padding: fresh.padding.update(fresh.group as int, true),
            ..fresh
        }
    }

    /// Groups of padding were added until there are one, two, four or eight groups.
    pub open spec fn rounded(self) -> Filling
        decreases 8 - self.next,
    {
        if self.next == 1 || self.next == 2 || self.next == 4 || self.next >= 8 {
            self
        } else {
            self.padded().rounded()
        }
    }

    /// The batch that is made of it.
    pub open spec fn finished(self) -> BatchModel {
        let whole = self.closed().rounded();
        assembled(whole.ops, whole.bounds(9), whole.padding)->Ok_0
    }
}

/// A batch with `k` operations from `from` on.
pub open spec fn filling(ops: Seq<Operation>, from: nat, k: nat) -> Filling
    decreases k,
{
    if k == 0 {
        Filling::nothing()
    } else {
        filling(ops, from, (k - 1) as nat).with(ops[from + k - 1])
    }
}

/// How many operations from `from` on a batch takes that has `k` of them: as many as fit.
pub open spec fn batch_len(ops: Seq<Operation>, from: nat, k: nat) -> nat
    decreases ops.len() - from - k,
{
    if from + k >= ops.len() || !filling(ops, from, k).fits(ops[(from + k) as int]) {
        k
    } else {
        batch_len(ops, from, k + 1)
    }
}

/// The operations from `from` on in batches.
pub open spec fn batched_from(ops: Seq<Operation>, from: nat) -> Seq<BatchModel>
    decreases ops.len() - from,
{
    let n = batch_len(ops, from, 0);
    if n == 0 || from + n > ops.len() {
        Seq::empty()
    } else {
        seq![filling(ops, from, n).finished()] + batched_from(ops, from + n)
    }
}

/// Operations in batches: each takes as many of them as fit.
pub open spec fn batched(ops: Seq<Operation>) -> Seq<BatchModel> {
    batched_from(ops, 0)
}

/// A batch under construction. The operations of the current group are those from
/// `indptr[group]` on.
struct Accumulator {
    ops: Vec<Operation>,
    indptr: [usize; 9],
    padding: [bool; 8],
    group: usize,
    next: usize,
}

impl Accumulator {
    spec fn view(&self) -> Filling {
        Filling {
            ops: self.ops@,
            starts: self.indptr@.take(self.group + 1),
            padding: self.padding@,
            group: self.group as nat,
            next: self.next as nat,
        }
    }

    /// The group boundaries, if no group followed the current one.
    spec fn bounds(self) -> Seq<usize> {
        Seq::new(
            9,
            |k: int|
                if k <= self.group {
                    self.indptr@[k]
                } else {
                    self.ops@.len() as usize
                },
        )
    }

    spec fn current(self) -> Seq<Operation> {
        self.ops@.skip(self.indptr@[self.group as int] as int)
    }

    spec fn shape(self) -> bool {
        &&& self.group < self.next <= 8
        &&& self.ops@.len() <= usize::MAX
        &&& self.indptr@[0] == 0
        &&& forall|i: int, j: int|
            0 <= i <= j <= self.group ==> self.indptr@[i] <= self.indptr@[j]
        &&& self.indptr@[self.group as int] <= self.ops@.len()
        &&& forall|i: int| 0 <= i < self.ops@.len() ==> (#[trigger] self.ops@[i]).wf()
        &&& forall|k: int| self.group < k < 8 ==> !(#[trigger] self.padding@[k])
        &&& forall|k: int|
            0 <= k <= self.group && #[trigger] self.padding@[k] ==> self.indptr@[k] < self.end_of(k)
                <= self.ops@.len() && self.ops@[self.end_of(k) - 1] == Operation::Noop
    }

    /// Where group `k` ends.
    spec fn end_of(self, k: int) -> int {
        if k < self.group {
            self.indptr@[k + 1] as int
        } else {
            self.ops@.len() as int
        }
    }

    /// The current group accepts operations.
    spec fn open_inv(self) -> bool {
        &&& self.shape()
        &&& !self.padding@[self.group as int]
        &&& next_slot(self.ops@, self.bounds(), self.group as nat) == Ok::<nat, InvalidValue>(
            self.group as nat,
        )
        &&& self.current().len() <= 9
        &&& self.next == self.group + 1 + immediates(self.current()).len()
        &&& self.current().len() > 0 && self.current().last().immediate() is Some
            ==> self.current().len() <= 8
    }

    /// The current group is complete.
    spec fn closed_inv(self) -> bool {
        &&& self.shape()
        &&& next_slot(self.ops@, self.bounds(), (self.group + 1) as nat) == Ok::<
            nat,
            InvalidValue,
        >(self.next as nat)
    }

    /// The operations that were added while the current group is open.
    spec fn taken(self) -> Seq<Operation> {
        raw_below(self.ops@, self.bounds(), self.padding@, self.group as nat) + self.current()
    }

    /// The operations that were added, once the current group is complete.
    spec fn closed_taken(self) -> Seq<Operation> {
        raw_below(self.ops@, self.bounds(), self.padding@, (self.group + 1) as nat)
    }

    fn new() -> (acc: Accumulator)
        ensures
            acc.open_inv(),
            acc.taken() == Seq::<Operation>::empty(),
            acc.current().len() == 0,
            acc.next == 1,
            acc@ == Filling::nothing(),
    {
        let acc = Accumulator {
            ops: Vec::new(),
            indptr: [0;9],
            padding: [false;8],
            group: 0,
            next: 1,
        };
        assert(acc.taken() =~= Seq::<Operation>::empty());
        assert(acc@.starts =~= Filling::nothing().starts);
        assert(acc@.padding =~= Filling::nothing().padding);
        acc
    }

    /// Appends an operation to the current group.
    fn push(&mut self, op: Operation)
        requires
            old(self).open_inv(),
            op.wf(),
            old(self).current().len() < 9,
            op.immediate() is Some ==> old(self).current().len() < 8 && old(self).next < 8,
        ensures
            final(self).open_inv(),
            final(self).taken() == old(self).taken().push(op),
            final(self).current() == old(self).current().push(op),
            final(self).group == old(self).group,
            final(self)@ == old(self)@.pushed(op),
    {
        let ghost before = *self;
        self.ops.push(op);
        let _total: usize = self.ops.len();
        if op.imm_value().is_some() {
            self.next = self.next + 1;
        }
        proof {
            assert(self.current() =~= before.current().push(op));
            assert(self.current().drop_last() =~= before.current());
            self.lemma_same_below(before);
            assert(self.taken() =~= before.taken().push(op));
        }
    }

    /// The groups below the current one are those of `before`.
    proof fn lemma_same_below(self, before: Accumulator)
        requires
            before.shape(),
            self.group == before.group,
            self.indptr@ == before.indptr@,
            before.ops@.len() <= self.ops@.len(),
            self.ops@.take(before.ops@.len() as int) =~= before.ops@,
            forall|k: int| 0 <= k < self.group ==> #[trigger] self.padding@[k]
                == before.padding@[k],
        ensures
            next_slot(self.ops@, self.bounds(), self.group as nat) == next_slot(
                before.ops@,
                before.bounds(),
                self.group as nat,
            ),
            raw_below(self.ops@, self.bounds(), self.padding@, self.group as nat) == raw_below(
                before.ops@,
                before.bounds(),
                before.padding@,
                self.group as nat,
            ),
    {
        let g = self.group as nat;
        assert forall|k: int| 0 <= k < g implies #[trigger] group_ops(
            self.ops@,
            self.bounds(),
            k,
        ) == group_ops(before.ops@, before.bounds(), k) by {
            let lo = self.indptr@[k] as int;
            let hi = self.indptr@[k + 1] as int;
            assert(before.indptr@[k] <= before.indptr@[k + 1] <= before.indptr@[g as int]);
            assert(before.ops@.subrange(lo, hi) =~= self.ops@.subrange(lo, hi));
        }
        lemma_next_slot_groups(self.ops@, self.bounds(), before.ops@, before.bounds(), g);
        lemma_raw_below_groups(
            self.ops@,
            self.bounds(),
            self.padding@,
            before.ops@,
            before.bounds(),
            before.padding@,
            g,
        );
    }

    /// Completes the current group: an operation with an immediate does not end it.
    fn close(&mut self)
        requires
            old(self).open_inv(),
            old(self).current().len() > 0,
        ensures
            final(self).closed_inv(),
            final(self).closed_taken() == old(self).taken(),
            final(self).next == old(self).next,
            final(self).group == old(self).group,
            final(self)@ == old(self)@.closed(),
    {
        let ghost before = *self;
        let last = self.ops[self.ops.len() - 1];
        assert(last == before.current().last());
        if last.imm_value().is_some() {
            self.ops.push(Operation::Noop);
            self.padding[self.group] = true;
            assert(self.current() =~= before.current().push(Operation::Noop));
            assert(self.current().drop_last() =~= before.current());
        }
        let _total: usize = self.ops.len();
        proof {
            self.lemma_same_below(before);
            let group = group_ops(self.ops@, self.bounds(), self.group as int);
            assert(group =~= self.current());
            assert(immediates(self.current()) == immediates(before.current()));
            assert(raw_group(self.ops@, self.bounds(), self.padding@, self.group as int)
                =~= before.current());
            assert(before@.ops.last() == last);
            assert(self@.padding =~= before@.closed().padding);
        }
    }

    /// Starts a group in the next slot.
    fn reopen(&mut self)
        requires
            old(self).closed_inv(),
            old(self).next < 8,
        ensures
            final(self).open_inv(),
            final(self).taken() == old(self).closed_taken(),
            final(self).current().len() == 0,
            final(self).group == old(self).next,
            final(self).ops == old(self).ops,
            final(self)@ == old(self)@.reopened(),
    {
        let ghost before = *self;
        let total: usize = self.ops.len();
        let mut k: usize = self.group + 1;
        while k <= self.next
            invariant
                before.closed_inv(),
                before.next < 8,
                self.ops == before.ops,
                self.group == before.group,
                self.next == before.next,
                self.padding == before.padding,
                total == self.ops@.len(),
                before.group < k <= before.next + 1,
                forall|i: int| 0 <= i <= before.group ==> self.indptr@[i] == before.indptr@[i],
                forall|i: int| before.group < i < k ==> self.indptr@[i] == total,
            decreases self.next + 1 - k,
        {
            self.indptr[k] = total;
            k += 1;
        }
        self.group = self.next;
        self.next = self.group + 1;
        proof {
            let g = (before.group + 1) as nat;
            let h = self.group as nat;
            assert(self.bounds() =~= before.bounds());
            assert forall|k: int| g <= k < h implies (#[trigger] group_ops(
                self.ops@,
                self.bounds(),
                k,
            )).len() == 0 by {}
            lemma_next_slot_empty(self.ops@, self.bounds(), g, h);
            lemma_raw_below_empty(self.ops@, self.bounds(), self.padding@, g, h);
            assert(self.current().len() == 0);
            assert(self.taken() =~= before.closed_taken());
            assert forall|i: int, j: int| 0 <= i <= j <= self.group implies self.indptr@[i]
                <= self.indptr@[j] by {
                if i <= before.group {
                    assert(before.indptr@[i] <= before.indptr@[before.group as int]);
                }
                if j <= before.group {
                    assert(before.indptr@[i] <= before.indptr@[j]);
                }
            }
            assert(immediates(self.current()).len() == 0);
            assert(self@.starts =~= before@.reopened().starts);
        }
    }

    /// Appends a group that holds nothing but padding.
    fn pad(&mut self)
        requires
            old(self).closed_inv(),
            old(self).next < 8,
        ensures
            final(self).closed_inv(),
            final(self).closed_taken() == old(self).closed_taken(),
            final(self).next == old(self).next + 1,
            final(self)@ == old(self)@.padded(),
    {
        self.reopen();
        let ghost before = *self;
        self.ops.push(Operation::Noop);
        let _total: usize = self.ops.len();
        self.padding[self.group] = true;
        proof {
            self.lemma_same_below(before);
            let group = group_ops(self.ops@, self.bounds(), self.group as int);
            assert(group =~= seq![Operation::Noop]);
            assert(group.drop_last() =~= Seq::<Operation>::empty());
            assert(immediates(group.drop_last()).len() == 0);
            assert(immediates(group).len() == 0);
            assert(self.closed_taken() =~= before.taken());
        }
    }

    /// Whether the batch has room for `op`.
    fn can_accept(&self, op: &Operation) -> (res: bool)
        requires
            self.open_inv(),
        ensures
            res == if op.immediate() is Some {
                if self.current().len() < 8 {
                    self.next < 8
                } else {
                    self.next < 7
                }
            } else {
                self.current().len() < 9 || self.next < 8
            },
            res == self@.fits(*op),
    {
        assert(self@.len() == self.current().len());
        let len: usize = self.ops.len() - self.indptr[self.group];
        if op.imm_value().is_some() {
            if len < 8 {
                self.next < 8
            } else {
                self.next < 7
            }
        } else {
            len < 9 || self.next < 8
        }
    }

    /// Appends `op`, in a new group where the current one has no room for it.
    fn accept(&mut self, op: Operation)
        requires
            old(self).open_inv(),
            op.wf(),
            if op.immediate() is Some {
                if old(self).current().len() < 8 {
                    old(self).next < 8
                } else {
                    old(self).next < 7
                }
            } else {
                old(self).current().len() < 9 || old(self).next < 8
            },
        ensures
            final(self).open_inv(),
            final(self).taken() == old(self).taken().push(op),
            final(self).current().len() > 0,
            final(self)@ == old(self)@.with(op),
    {
        assert(self@.len() == self.current().len());
        let len: usize = self.ops.len() - self.indptr[self.group];
        if len == 9 || (len == 8 && op.imm_value().is_some()) {
            self.close();
            self.reopen();
        }
        self.push(op);
    }

    /// Completes the batch: its groups become one, two, four or eight.
    fn finish(self) -> (batch: OpBatch)
        requires
            self.open_inv(),
            self.current().len() > 0,
        ensures
            batch@.wf(),
            batch@.raw_ops() == self.taken(),
            batch.num_groups >= self.next,
            batch.num_groups == 1 || batch.num_groups == 2 || batch.num_groups == 4
                || batch.num_groups == 8,
            batch@ == self@.finished(),
            padded_with_noops(batch@),
    {
        let ghost before = self;
        let mut acc = self;
        acc.close();
        while acc.next != 1 && acc.next != 2 && acc.next != 4 && acc.next != 8
            invariant
                acc.closed_inv(),
                acc.closed_taken() == before.taken(),
                acc.next >= before.next,
                acc@.rounded() == before@.closed().rounded(),
            decreases 8 - acc.next,
        {
            acc.pad();
        }
        let total: usize = acc.ops.len();
        let ghost closed = acc;
        let mut indptr = acc.indptr;
        let mut k: usize = acc.group + 1;
        while k < 9
            invariant
                closed.closed_inv(),
                total == closed.ops@.len(),
                closed.group < k <= 9,
                forall|i: int| 0 <= i <= closed.group ==> indptr@[i] == closed.indptr@[i],
                forall|i: int| closed.group < i < k ==> indptr@[i] == total,
            decreases 9 - k,
        {
            indptr[k] = total;
            k += 1;
        }
        proof {
            assert(indptr@ =~= closed.bounds());
            assert(indptr@ =~= closed@.bounds(9));
            let g = (closed.group + 1) as nat;
            assert forall|k: int| g <= k < 8 implies (#[trigger] group_ops(
                closed.ops@,
                indptr@,
                k,
            )).len() == 0 by {}
            reveal(assembled);
            lemma_next_slot_empty(closed.ops@, indptr@, g, 8);
            lemma_raw_below_empty(closed.ops@, indptr@, closed.padding@, g, 8);
        }
        match OpBatch::assemble(acc.ops, indptr, acc.padding) {
            Ok(batch) => {
                proof {
                    reveal(assembled);
                    assert forall|g: int| 0 <= g < 8 && #[trigger] batch@.padding[g] implies group_ops(
                        batch@.ops,
                        batch@.indptr,
                        g,
                    ).len() > 0 && group_ops(batch@.ops, batch@.indptr, g).last()
                        == Operation::Noop by {
                        assert(closed.padding@[g]);
                        assert(closed.end_of(g) == batch@.indptr[g + 1]);
                    }
                }
                batch
            },
            Err(_) => {
                assert(false);
                vstd::pervasive::unreached()
            },
        }
    }
}

/// The next batch of `ops` from `from` on, and where it ends.
fn next_batch(ops: &Vec<Operation>, from: usize) -> (res: (OpBatch, usize))
    requires
        from < ops.len(),
        forall|i: int| 0 <= i < ops@.len() ==> (#[trigger] ops@[i]).wf(),
    ensures
        from < res.1 <= ops.len(),
        res.0@.wf(),
        res.0@.raw_ops() == ops@.subrange(from as int, res.1 as int),
        res.0.num_groups == 1 || res.0.num_groups == 2 || res.0.num_groups == 4
            || res.0.num_groups == 8,
        res.1 < ops.len() ==> res.0.num_groups == 8,
        padded_with_noops(res.0@),
        res.1 == from + batch_len(ops@, from as nat, 0),
        res.0@ == filling(ops@, from as nat, batch_len(ops@, from as nat, 0)).finished(),
{
    let mut acc = Accumulator::new();
    let mut i: usize = from;
    assert(ops@.subrange(from as int, from as int) =~= Seq::<Operation>::empty());
    while i < ops.len()
        invariant
            from <= i <= ops.len(),
            from < ops.len(),
            forall|i: int| 0 <= i < ops@.len() ==> (#[trigger] ops@[i]).wf(),
            acc.open_inv(),
            acc.taken() == ops@.subrange(from as int, i as int),
            acc@ == filling(ops@, from as nat, (i - from) as nat),
            batch_len(ops@, from as nat, 0) == batch_len(ops@, from as nat, (i - from) as nat),
            i > from ==> acc.current().len() > 0,
            i == from ==> acc.current().len() == 0 && acc.next == 1,
        ensures
            from < i <= ops.len(),
            acc.open_inv(),
            acc.taken() == ops@.subrange(from as int, i as int),
            acc@ == filling(ops@, from as nat, (i - from) as nat),
            batch_len(ops@, from as nat, 0) == i - from,
            acc.current().len() > 0,
            i < ops.len() ==> acc.next >= 7,
        decreases ops.len() - i,
    {
        let op = ops[i];
        if !acc.can_accept(&op) {
            proof {
                lemma_immediates_len(acc.current());
            }
            break;
        }
        acc.accept(op);
        assert(ops@.subrange(from as int, i + 1) =~= ops@.subrange(from as int, i as int).push(op));
        i += 1;
    }
    (acc.finish(), i)
}

/// The operations of a sequence of batches without padding.
pub open spec fn raw_of(batches: Seq<BatchModel>) -> Seq<Operation>
    decreases batches.len(),
{
    if batches.len() == 0 {
        Seq::empty()
    } else {
        raw_of(batches.drop_last()) + batches.last().raw_ops()
    }
}

/// The contents of a list of batches.
pub open spec fn models(batches: Seq<OpBatch>) -> Seq<BatchModel> {
    Seq::new(batches.len(), |i: int| batches[i]@)
}

/// Every batch but the last has eight groups, and the last a power of two of them.
pub open spec fn full_batches(batches: Seq<BatchModel>) -> bool {
    forall|i: int|
        0 <= i < batches.len() ==> {
            let n = (#[trigger] batches[i]).num_groups;
            n == 8 || (i == batches.len() - 1 && (n == 1 || n == 2 || n == 4))
        }
}

/// Padding is an operation without effect at the end of a group.
pub open spec fn padded_with_noops(batch: BatchModel) -> bool {
    forall|g: int|
        0 <= g < 8 && #[trigger] batch.padding[g] ==> group_ops(batch.ops, batch.indptr, g).len()
            > 0 && group_ops(batch.ops, batch.indptr, g).last() == Operation::Noop
}

/// Splits operations into batches: each takes as many of them as fit.
pub fn batch_operations(ops: &Vec<Operation>) -> (batches: Vec<OpBatch>)
    requires
        forall|i: int| 0 <= i < ops@.len() ==> (#[trigger] ops@[i]).wf(),
    ensures
        raw_of(models(batches@)) == ops@,
        forall|i: int| 0 <= i < batches@.len() ==> (#[trigger] batches@[i])@.wf(),
        full_batches(models(batches@)),
        forall|i: int| 0 <= i < batches@.len() ==> padded_with_noops((#[trigger] batches@[i])@),
        models(batches@) == batched(ops@),
        ops@.len() == 0 <==> batches@.len() == 0,
        batches@.len() <= ops@.len(),
{
    let mut batches: Vec<OpBatch> = Vec::new();
    let mut i: usize = 0;
    assert(models(batches@) =~= Seq::<BatchModel>::empty());
    assert(ops@.take(0) =~= Seq::<Operation>::empty());
    assert(models(batches@) + batched_from(ops@, 0) =~= batched(ops@));
    while i < ops.len()
        invariant
            i <= ops.len(),
            forall|i: int| 0 <= i < ops@.len() ==> (#[trigger] ops@[i]).wf(),
            raw_of(models(batches@)) == ops@.take(i as int),
            forall|i: int| 0 <= i < batches@.len() ==> (#[trigger] batches@[i])@.wf(),
            full_batches(models(batches@)),
            forall|i: int| 0 <= i < batches@.len() ==> padded_with_noops((#[trigger] batches@[i])@),
            i < ops.len() ==> forall|k: int|
                0 <= k < batches@.len() ==> (#[trigger] batches@[k]).num_groups == 8,
            models(batches@) + batched_from(ops@, i as nat) == batched(ops@),
            i == 0 <==> batches@.len() == 0,
            batches@.len() <= i,
        decreases ops.len() - i,
    {
        let (batch, end) = next_batch(ops, i);
        let ghost before = models(batches@);
        let ghost earlier = batches@;
        batches.push(batch);
        proof {
            assert(models(batches@).drop_last() =~= before);
            assert(models(batches@).last() == batch@);
            assert(models(batches@) + batched_from(ops@, end as nat) =~= before + batched_from(
                ops@,
                i as nat,
            ));
            assert(ops@.take(end as int) =~= ops@.take(i as int) + ops@.subrange(
                i as int,
                end as int,
            ));
            assert forall|k: int| 0 <= k < batches@.len() implies ({
                let n = (#[trigger] models(batches@)[k]).num_groups;
                n == 8 || (k == batches@.len() - 1 && (n == 1 || n == 2 || n == 4))
            }) by {
                if k < earlier.len() {
                    assert(batches@[k] == earlier[k]);
                    assert(earlier[k].num_groups == 8);
                }
            }
        }
        i = end;
    }
    assert(ops@.take(i as int) =~= ops@);
    assert(models(batches@) + batched_from(ops@, i as nat) =~= models(batches@));
    batches
}

/// The operation codes of a group can be read back off its element, seven bits each, the first
/// lowest.
pub proof fn law_groups_hold_their_codes(ops: Seq<Operation>, i: int)
    requires
        0 <= i < ops.len(),
    ensures
        packed(ops) / pow128(i as nat) % 128 == ops[i].code() as nat,
    decreases ops.len(),
{
    let front = ops.drop_last();
    let n = front.len();
    let c = ops.last().code() as nat;
    lemma_packed_bound(front);
    lemma_pow128_positive(i as nat);
    lemma_pow128_positive(n);
    crate::operation::lemma_code_bound(ops.last());
    let x = packed(front) as int;
    let p = pow128(i as nat) as int;
    if i == n {
        vstd::arithmetic::div_mod::lemma_fundamental_div_mod_converse(
            packed(ops) as int,
            p,
            c as int,
            x,
        );
    } else {
        law_groups_hold_their_codes(front, i);
        assert(front[i] == ops[i]);
        lemma_pow128_split(i as nat, (n - i) as nat);
        lemma_pow128_positive((n - i - 1) as nat);
        let q = pow128((n - i - 1) as nat) as int;
        assert(pow128((n - i) as nat) == 128 * q);
        assert(c * pow128(n) == p * (128 * (q * c))) by (nonlinear_arith)
            requires
                pow128(n) == p * (128 * q),
        ;
        vstd::arithmetic::div_mod::lemma_hoist_over_denominator(x, 128 * (q * c), p as nat);
        vstd::arithmetic::div_mod::lemma_mod_multiples_vanish(q * c, x / p, 128);
    }
}

proof fn lemma_pow128_positive(k: nat)
    ensures
        pow128(k) > 0,
    decreases k,
{
    if k > 0 {
        lemma_pow128_positive((k - 1) as nat);
    }
}

proof fn lemma_pow128_split(a: nat, b: nat)
    ensures
        pow128(a + b) == pow128(a) * pow128(b),
    decreases b,
{
    if b > 0 {
        lemma_pow128_split(a, (b - 1) as nat);
        let x = pow128(a) as int;
        let y = pow128((b - 1) as nat) as int;
        assert(128 * (x * y) == x * (128 * y)) by (nonlinear_arith);
    } else {
        assert(pow128(a) * 1 == pow128(a));
    }
}

/// Where the groups up to some group and their immediates end does not come before where those of
/// fewer end.
proof fn lemma_next_slot_grows(ops: Seq<Operation>, indptr: Seq<usize>, g: nat, h: nat)
    requires
        g <= h,
        next_slot(ops, indptr, h) is Ok,
    ensures
        next_slot(ops, indptr, g) is Ok,
        next_slot(ops, indptr, g)->Ok_0 <= next_slot(ops, indptr, h)->Ok_0,
    decreases h - g,
{
    if g < h {
        lemma_next_slot_grows(ops, indptr, g, (h - 1) as nat);
    }
}

proof fn lemma_slots_stay(ops: Seq<Operation>, indptr: Seq<usize>, g: nat, h: nat, x: int)
    requires
        g <= h <= 8,
        next_slot(ops, indptr, h) is Ok,
        0 <= x < next_slot(ops, indptr, g)->Ok_0,
        x < 8,
    ensures
        slots(ops, indptr, h)[x] == slots(ops, indptr, g)[x],
    decreases h - g,
{
    if g < h {
        lemma_next_slot_grows(ops, indptr, g, (h - 1) as nat);
        lemma_slots_stay(ops, indptr, g, (h - 1) as nat, x);
        lemma_slots_len(ops, indptr, (h - 1) as nat);
    }
}

/// A batch holds each of its groups in the slot of the group, as the codes of its operations, and
/// behind it the immediate values of the group, in the order of their operations.
pub proof fn law_batches_hold_their_groups(batch: BatchModel, g: int, i: int)
    requires
        batch.wf(),
        0 <= g < 8,
        group_ops(batch.ops, batch.indptr, g).len() > 0,
    ensures
        ({
            let group = group_ops(batch.ops, batch.indptr, g);
            &&& batch.groups.len() == 8
            &&& batch.groups[g].value == packed(group)
            &&& g + immediates(group).len() < 8
            &&& 0 <= i < immediates(group).len() ==> batch.groups[g + 1 + i] == immediates(group)[i]
        }),
{
    reveal(assembled);
    let group = group_ops(batch.ops, batch.indptr, g);
    let h = (g + 1) as nat;
    lemma_next_slot_grows(batch.ops, batch.indptr, h, 8);
    lemma_slots_len(batch.ops, batch.indptr, g as nat);
    lemma_slots_len(batch.ops, batch.indptr, h);
    lemma_slots_len(batch.ops, batch.indptr, 8);
    lemma_slots_stay(batch.ops, batch.indptr, h, 8, g);
    lemma_packed_bound(group);
    lemma_pow128_values();
    lemma_pow128_monotone(group.len(), 9);
    let values = seq![Felt { value: packed(group) as u64 }] + immediates(group);
    assert(values[0] == Felt { value: packed(group) as u64 });
    if 0 <= i < immediates(group).len() {
        lemma_slots_stay(batch.ops, batch.indptr, h, 8, g + 1 + i);
        assert(values[i + 1] == immediates(group)[i]);
    }
}

} // verus!
