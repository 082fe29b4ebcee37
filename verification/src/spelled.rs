//! What the source of a body spells, and that the code it is compiled to spells the same.

use vstd::prelude::*;

use crate::assembler::{epilogue_of, prologue_of, ProcedureSource};
use crate::body::{
    bare_block, block_built, body_built, body_closed, body_fault, call_built, call_draft, chain_at,
    cut, dyn_draft, exec_built, flushed, loop_built, loop_draft, node_built, noop_block, noop_built,
    op_fault, part_built, parts_of, rows_fit, split_built, split_draft, target_built, target_plan,
    with_part, Assembler, CompileError, CompiledProcedure, Instruction, Op, Part, Pending, Steps,
    Target, TargetPlan,
};
use crate::builder::{recorded, AssemblyOp, BuilderModel};
use crate::debug_info::DebugSourceInlineCall;
use crate::felt::Word;
use crate::merge::{
    block_uses, is_tree, join_draft, join_recorded, joined, merged_stretches, merges, paired,
    pairs_joined, piece_holds, pieces_hold, pieces_in, pieces_out, run_ops, segments, segments_upto,
    use_ops, Piece, RowsModel, Segment,
};
use crate::operation::Operation;
use crate::path::GlobalItemIndex;
use crate::pending::{DraftModel, MastNodeRef, MastNodeUse, PendingKind};
use crate::procedures::procedure_index;
use crate::registry::ProcedureEntry;
use crate::static_import::use_sources;
use crate::types::{larger, smaller};

verus! {

// STRAIGHT-LINE CODE
// ================================================================================================

/// What a body does next: it runs an operation, or it does what the op at an index says.
pub ghost enum Act {
    Run(Operation),
    Do(int),
}

/// Operations that are run one after another.
pub open spec fn run(ops: Seq<Operation>) -> Seq<Act> {
    Seq::new(ops.len(), |i: int| Act::Run(ops[i]))
}

/// What the first `k` ops of a body do, in the order in which they are written. A note on inlined
/// calls does nothing.
pub open spec fn written(body: Seq<Op>, k: nat) -> Seq<Act>
    decreases k,
{
    if k == 0 {
        Seq::empty()
    } else {
        written(body, (k - 1) as nat) + match body[k - 1] {
            Op::Inst(Instruction::Basic(piece)) => run(piece.ops@),
            Op::Inst(Instruction::Inline(_)) => Seq::empty(),
            _ => seq![Act::Do(k - 1)],
        }
    }
}

/// What a part of a compiled body does.
pub open spec fn part_acts(part: Part) -> Seq<Act> {
    match part {
        Part::Block(block) => run(block.ops),
        Part::Node(i) => seq![Act::Do(i)],
        Part::Invoked(i, block) => run(block.ops).push(Act::Do(i)),
    }
}

/// What the parts of a compiled body do, one after another.
pub open spec fn acts(parts: Seq<Part>) -> Seq<Act>
    decreases parts.len(),
{
    if parts.len() == 0 {
        Seq::empty()
    } else {
        acts(parts.drop_last()) + part_acts(parts.last())
    }
}

proof fn lemma_acts_push(parts: Seq<Part>, part: Part)
    ensures
        acts(parts.push(part)) == acts(parts) + part_acts(part),
{
    assert(parts.push(part).drop_last() =~= parts);
}

proof fn lemma_acts_flushed(parts: Seq<Part>, pending: Pending)
    ensures
        acts(flushed(parts, pending)) == acts(parts) + run(pending.ops),
{
    lemma_acts_push(parts, Part::Block(pending));
    if pending.ops.len() == 0 {
        assert(acts(parts) + run(pending.ops) =~= acts(parts));
    }
}

proof fn lemma_cut_acts(body: Seq<Op>, start: Pending, k: nat)
    requires
        k <= body.len(),
    ensures
        ({
            let (parts, pending) = cut(body, start, k);
            acts(parts) + run(pending.ops) == run(start.ops) + written(body, k)
        }),
    decreases k,
{
    let (parts, pending) = cut(body, start, k);
    if k == 0 {
        assert(acts(parts) + run(pending.ops) =~= run(start.ops) + written(body, k));
    } else {
        lemma_cut_acts(body, start, (k - 1) as nat);
        let (before, open) = cut(body, start, (k - 1) as nat);
        let all = acts(before) + run(open.ops);
        match body[k - 1] {
            Op::Inst(Instruction::Basic(piece)) => {
                assert(run(pending.ops) =~= run(open.ops) + run(piece.ops@));
                assert(acts(parts) + run(pending.ops) =~= all + run(piece.ops@));
                assert(all + run(piece.ops@) =~= run(start.ops) + written(body, k));
            },
            Op::Inst(Instruction::Inline(_)) => {
                assert(written(body, k) =~= written(body, (k - 1) as nat));
            },
            Op::Inst(_) => {
                let part = Part::Invoked(k - 1, open);
                lemma_acts_push(before, part);
                assert(acts(parts) + run(pending.ops) =~= all + seq![Act::Do(k - 1)]);
                assert(all + seq![Act::Do(k - 1)] =~= run(start.ops) + written(body, k));
            },
            _ => {
                lemma_acts_flushed(before, open);
                lemma_acts_push(flushed(before, open), Part::Node(k - 1));
                assert(acts(parts) + run(pending.ops) =~= all + seq![Act::Do(k - 1)]);
                assert(all + seq![Act::Do(k - 1)] =~= run(start.ops) + written(body, k));
            },
        }
    }
}

/// The parts that a body is compiled to do what is written in it, in that order and nothing else,
/// between the prologue and the epilogue.
pub proof fn law_parts_do_what_is_written(
    body: Seq<Op>,
    prologue: Seq<Operation>,
    epilogue: Seq<Operation>,
)
    ensures
        acts(parts_of(body, prologue, epilogue)) == run(prologue) + written(body, body.len())
            + run(epilogue),
{
    let (parts, pending) = cut(body, bare_block(prologue), body.len());
    lemma_cut_acts(body, bare_block(prologue), body.len());
    let last = pending.extended(epilogue, crate::body::no_rows());
    lemma_acts_flushed(parts, last);
    assert(run(last.ops) =~= run(pending.ops) + run(epilogue));
    assert(acts(parts) + run(last.ops) =~= acts(parts) + run(pending.ops) + run(epilogue));
}

/// The code of a procedure with at least one local that is no entry point begins with what sets its
/// frame up and ends with what takes it down; that of one without locals is what is written in it;
/// that of an entry point begins with what sets its frame up and ends with what is written in it.
pub proof fn law_frames_surround_procedures(source: ProcedureSource, is_entrypoint: bool)
    ensures
        ({
            let code = acts(
                parts_of(
                    source.body@,
                    prologue_of(source, is_entrypoint),
                    epilogue_of(source, is_entrypoint),
                ),
            );
            let own = written(source.body@, source.body@.len());
            &&& !is_entrypoint && source.num_locals > 0 ==> {
                &&& code == run(source.frame_start@) + own + run(source.frame_end@)
                &&& code.take(source.frame_start@.len() as int) == run(source.frame_start@)
                &&& code.skip(code.len() - source.frame_end@.len()) == run(source.frame_end@)
            }
            &&& !is_entrypoint && source.num_locals == 0 ==> code == own
            &&& is_entrypoint ==> code == run(source.frame_init@) + own
        }),
{
    law_parts_do_what_is_written(
        source.body@,
        prologue_of(source, is_entrypoint),
        epilogue_of(source, is_entrypoint),
    );
    let code = acts(
        parts_of(
            source.body@,
            prologue_of(source, is_entrypoint),
            epilogue_of(source, is_entrypoint),
        ),
    );
    let own = written(source.body@, source.body@.len());
    if !is_entrypoint && source.num_locals > 0 {
        assert(code.take(source.frame_start@.len() as int) =~= run(source.frame_start@));
        assert(code.skip(code.len() - source.frame_end@.len()) =~= run(source.frame_end@));
    } else if !is_entrypoint {
        assert(run(Seq::empty()) + own + run(Seq::empty()) =~= own);
    } else {
        assert(run(source.frame_init@) + own + run(Seq::empty()) =~= run(source.frame_init@) + own);
    }
}

// CONTROL FLOW
// ================================================================================================

/// A use was recorded at the end as a node of a kind over the uses of its children.
pub open spec fn recorded_as(
    after: BuilderModel,
    kind: PendingKind,
    children: Seq<MastNodeUse>,
    u: MastNodeUse,
) -> bool {
    exists|before: BuilderModel, draft: DraftModel| #[trigger]
        recorded(before, after, draft, use_sources(children), u) && draft.kind == kind
            && draft.child_refs == use_nodes(children)
}

pub open spec fn use_nodes(uses: Seq<MastNodeUse>) -> Seq<MastNodeRef> {
    Seq::new(uses.len(), |i: int| uses[i].node_ref)
}

/// A use was recorded on the way as a node of a kind over the uses of its children.
pub open spec fn was_recorded_as(kind: PendingKind, children: Seq<MastNodeUse>, u: MastNodeUse) -> bool {
    exists|at: BuilderModel| #[trigger] recorded_as(at, kind, children, u)
}

/// A use was recorded on the way as a block of operations.
pub open spec fn was_block(ops: Seq<Operation>, u: MastNodeUse) -> bool {
    exists|before: BuilderModel, after: BuilderModel, block: Pending| #[trigger]
        block_built(before, after, block, u) && block.ops == ops
}

/// A use was recorded on the way as a block of one operation without effect, under inlined calls.
pub open spec fn was_noop(chain: Seq<DebugSourceInlineCall>, u: MastNodeUse) -> bool {
    exists|before: BuilderModel, after: BuilderModel, block: Pending| #[trigger]
        block_built(before, after, block, u) && block.ops == seq![Operation::Noop]
            && block.rows.inline_calls == chain && block.rows.asm_ops.len() == 0
            && block.rows.debug_vars.len() == 0 && block.rows.call_frames.len() == 0
}

/// A use is what a body inside of another was compiled to.
pub open spec fn compiled(
    a: Assembler,
    procs: Seq<ProcedureEntry>,
    body: Seq<Op>,
    chain: Seq<DebugSourceInlineCall>,
    begin: AssemblyOp,
    u: MastNodeUse,
) -> bool {
    exists|before: BuilderModel, after: BuilderModel| #[trigger]
        body_built(a, procs, before, after, body, Seq::empty(), Seq::empty(), chain, begin, u)
}

proof fn lemma_compiled(
    a: Assembler,
    procs: Seq<ProcedureEntry>,
    before: BuilderModel,
    after: BuilderModel,
    body: Seq<Op>,
    chain: Seq<DebugSourceInlineCall>,
    begin: AssemblyOp,
    u: MastNodeUse,
)
    requires
        body_built(a, procs, before, after, body, Seq::empty(), Seq::empty(), chain, begin, u),
    ensures
        compiled(a, procs, body, chain, begin, u),
{
}

/// The arm that a conditional has for a condition.
pub open spec fn arm_for(op: Op, condition: bool) -> Seq<Op> {
    match op {
        Op::If { span: _, asm_op: _, then_blk, else_blk } => if condition {
            then_blk@
        } else {
            else_blk@
        },
        _ => Seq::empty(),
    }
}

/// The child of a split that is run: the first if the condition holds, else the second.
pub open spec fn taken(arms: Seq<MastNodeUse>, condition: bool) -> MastNodeUse {
    if condition {
        arms[0]
    } else {
        arms[1]
    }
}

/// A conditional is compiled to a split that runs, whatever the condition is, the code of the arm
/// that is written for it.
#[verifier::spinoff_prover]
#[verifier::rlimit(60)]
pub proof fn law_conditionals_run_their_arms(
    a: Assembler,
    procs: Seq<ProcedureEntry>,
    b: BuilderModel,
    after: BuilderModel,
    op: Op,
    chain: Seq<DebugSourceInlineCall>,
    begin: AssemblyOp,
    u: MastNodeUse,
)
    requires
        op is If,
        node_built(a, procs, b, after, op, chain, begin, u),
    ensures
        exists|arms: Seq<MastNodeUse>| #[trigger]
            recorded_as(after, PendingKind::Split, arms, u) && arms.len() == 2 && forall|c: bool|
                compiled(a, procs, arm_for(op, c), chain, begin, #[trigger] taken(arms, c)),
{
    match op {
        Op::If { span: _, asm_op, then_blk, else_blk } => {
            let w = choose|w: Steps| #[trigger]
                split_built(w.s2, after, w.u1, w.u2, asm_op, chain, u) && body_built(
                    a,
                    procs,
                    b,
                    w.s1,
                    then_blk@,
                    Seq::empty(),
                    Seq::empty(),
                    chain,
                    begin,
                    w.u1,
                ) && body_built(
                    a,
                    procs,
                    w.s1,
                    w.s2,
                    else_blk@,
                    Seq::empty(),
                    Seq::empty(),
                    chain,
                    begin,
                    w.u2,
                );
            let arms = seq![w.u1, w.u2];
            lemma_split_recorded(w.s2, after, w.u1, w.u2, asm_op, chain, u);
            lemma_compiled(a, procs, b, w.s1, then_blk@, chain, begin, w.u1);
            lemma_compiled(a, procs, w.s1, w.s2, else_blk@, chain, begin, w.u2);
            assert forall|c: bool|
                compiled(a, procs, arm_for(op, c), chain, begin, #[trigger] taken(arms, c)) by {
                assert(taken(arms, true) == w.u1 && taken(arms, false) == w.u2);
            }
        },
        _ => {},
    }
}

proof fn lemma_split_recorded(
    b: BuilderModel,
    after: BuilderModel,
    on_true: MastNodeUse,
    on_false: MastNodeUse,
    asm_op: AssemblyOp,
    chain: Seq<DebugSourceInlineCall>,
    u: MastNodeUse,
)
    requires
        split_built(b, after, on_true, on_false, asm_op, chain, u),
    ensures
        recorded_as(after, PendingKind::Split, seq![on_true, on_false], u),
{
    let arms = seq![on_true, on_false];
    let draft = split_draft(b, on_true, on_false, asm_op, chain);
    assert(use_sources(arms) =~= seq![on_true.source_ref.0, on_false.source_ref.0]);
    assert(use_nodes(arms) =~= draft.child_refs);
    assert(recorded(b, after, draft, use_sources(arms), u));
}

proof fn lemma_loop_recorded(
    b: BuilderModel,
    after: BuilderModel,
    body: MastNodeUse,
    asm_op: AssemblyOp,
    chain: Seq<DebugSourceInlineCall>,
    u: MastNodeUse,
)
    requires
        loop_built(b, after, body, asm_op, chain, u),
    ensures
        recorded_as(after, PendingKind::Loop, seq![body], u),
{
    let draft = loop_draft(b, body, asm_op, chain);
    assert(use_sources(seq![body]) =~= seq![body.source_ref.0]);
    assert(use_nodes(seq![body]) =~= draft.child_refs);
    assert(recorded(b, after, draft, use_sources(seq![body]), u));
}

/// A loop with its condition at the head runs its body over and over if the condition holds, and
/// nothing but an operation without effect if it does not hold; one with its condition at the tail
/// runs its body over and over.
#[verifier::spinoff_prover]
#[verifier::rlimit(60)]
pub proof fn law_loops_run_their_bodies(
    a: Assembler,
    procs: Seq<ProcedureEntry>,
    b: BuilderModel,
    after: BuilderModel,
    op: Op,
    chain: Seq<DebugSourceInlineCall>,
    begin: AssemblyOp,
    u: MastNodeUse,
)
    requires
        node_built(a, procs, b, after, op, chain, begin, u),
    ensures
        op matches Op::While { span: _, asm_op: _, body } ==> exists|
            arms: Seq<MastNodeUse>,
            inner: MastNodeUse,
        | #[trigger]
            was_recorded_as(PendingKind::Loop, seq![inner], taken(arms, true)) && compiled(
                a,
                procs,
                body@,
                chain,
                begin,
                inner,
            ) && was_noop(chain, taken(arms, false)) && arms.len() == 2
                && recorded_as(after, PendingKind::Split, arms, u),
        op matches Op::DoWhile { span: _, asm_op: _, body } ==> exists|inner: MastNodeUse|
            #[trigger]
            recorded_as(after, PendingKind::Loop, seq![inner], u) && compiled(
                a,
                procs,
                body@,
                chain,
                begin,
                inner,
            ),
{
    match op {
        Op::While { span: _, asm_op, body } => {
            let w = choose|w: Steps| #[trigger]
                split_built(w.s3, after, w.u2, w.u3, asm_op, chain, u) && body_built(
                    a,
                    procs,
                    b,
                    w.s1,
                    body@,
                    Seq::empty(),
                    Seq::empty(),
                    chain,
                    begin,
                    w.u1,
                ) && loop_built(w.s1, w.s2, w.u1, asm_op, chain, w.u2) && noop_built(
                    w.s2,
                    w.s3,
                    chain,
                    w.u3,
                );
            let arms = seq![w.u2, w.u3];
            lemma_split_recorded(w.s3, after, w.u2, w.u3, asm_op, chain, u);
            lemma_loop_recorded(w.s1, w.s2, w.u1, asm_op, chain, w.u2);
            assert(was_recorded_as(PendingKind::Loop, seq![w.u1], taken(arms, true)));
            assert(block_built(w.s2, w.s3, noop_block(chain), w.u3));
            assert(was_noop(chain, taken(arms, false)));
            lemma_compiled(a, procs, b, w.s1, body@, chain, begin, w.u1);
        },
        Op::DoWhile { span: _, asm_op, body } => {
            let w = choose|w: Steps| #[trigger]
                loop_built(w.s1, after, w.u1, asm_op, chain, u) && body_built(
                    a,
                    procs,
                    b,
                    w.s1,
                    body@,
                    Seq::empty(),
                    Seq::empty(),
                    chain,
                    begin,
                    w.u1,
                );
            lemma_loop_recorded(w.s1, after, w.u1, asm_op, chain, u);
            lemma_compiled(a, procs, b, w.s1, body@, chain, begin, w.u1);
        },
        _ => {},
    }
}

/// A call is recorded as a call and a syscall as a syscall, over the code of its target; a dynamic
/// call is told from a dynamic execution; and what is executed in place is the code of the target
/// itself.
#[verifier::spinoff_prover]
#[verifier::rlimit(60)]
pub proof fn law_invocations_keep_their_kind(
    a: Assembler,
    procs: Seq<ProcedureEntry>,
    b: BuilderModel,
    after: BuilderModel,
    inst: Instruction,
    chain: Seq<DebugSourceInlineCall>,
    begin: AssemblyOp,
    u: MastNodeUse,
)
    requires
        node_built(a, procs, b, after, Op::Inst(inst), chain, begin, u),
    ensures
        inst is Exec ==> exists|mid: BuilderModel, callee: MastNodeUse| #[trigger]
            target_built(a, procs, b, mid, inst->Exec_target, callee) && u.node_ref
                == callee.node_ref && after.nodes == mid.nodes,
        inst is Call ==> exists|mid: BuilderModel, callee: MastNodeUse| #[trigger]
            target_built(a, procs, b, mid, inst->Call_target, callee) && recorded_as(
                after,
                PendingKind::Call(inst->is_syscall),
                seq![callee],
                u,
            ),
        inst is Dyn ==> recorded_as(after, PendingKind::Dyn(inst->is_dyncall), Seq::empty(), u),
{
    match inst {
        Instruction::Exec { span: _, target } => {
            let w = choose|w: Steps| #[trigger]
                exec_built(w.s1, after, w.u1, chain, u) && target_built(
                    a,
                    procs,
                    b,
                    w.s1,
                    target,
                    w.u1,
                );
            assert(target_built(a, procs, b, w.s1, target, w.u1));
        },
        Instruction::Call { span: _, target, is_syscall, asm_op } => {
            let w = choose|w: Steps| #[trigger]
                call_built(w.s1, after, w.u1, is_syscall, asm_op, chain, u) && target_built(
                    a,
                    procs,
                    b,
                    w.s1,
                    target,
                    w.u1,
                );
            let draft = call_draft(w.s1, w.u1, is_syscall, asm_op, chain);
            assert(use_sources(seq![w.u1]) =~= seq![w.u1.source_ref.0]);
            assert(use_nodes(seq![w.u1]) =~= draft.child_refs);
            assert(recorded(w.s1, after, draft, use_sources(seq![w.u1]), u));
            assert(target_built(a, procs, b, w.s1, target, w.u1));
        },
        Instruction::Dyn { is_dyncall, asm_op } => {
            let draft = dyn_draft(is_dyncall, asm_op, chain);
            assert(use_sources(Seq::empty()) =~= Seq::<u32>::empty());
            assert(use_nodes(Seq::empty()) =~= draft.child_refs);
            assert(recorded(b, after, draft, use_sources(Seq::empty()), u));
        },
        _ => {},
    }
}

// RUNS OF BLOCKS
// ================================================================================================

/// The operations of a part of a sequence of blocks.
pub open spec fn segment_ops(b: BuilderModel, part: Segment) -> Seq<Operation> {
    match part {
        Segment::Kept(u) => use_ops(b, u),
        Segment::Merged(uses) => run_ops(b, uses, uses.len()),
    }
}

/// The operations of the parts of a sequence of blocks, one after another.
pub open spec fn segments_ops(b: BuilderModel, parts: Seq<Segment>) -> Seq<Operation>
    decreases parts.len(),
{
    if parts.len() == 0 {
        Seq::empty()
    } else {
        segments_ops(b, parts.drop_last()) + segment_ops(b, parts.last())
    }
}

proof fn lemma_segments_ops_push(b: BuilderModel, parts: Seq<Segment>, part: Segment)
    ensures
        segments_ops(b, parts.push(part)) == segments_ops(b, parts) + segment_ops(b, part),
{
    assert(parts.push(part).drop_last() =~= parts);
}

proof fn lemma_run_ops_front(b: BuilderModel, uses: Seq<MastNodeUse>, more: Seq<MastNodeUse>, k: nat)
    requires
        k <= uses.len(),
        k <= more.len(),
        forall|i: int| 0 <= i < k ==> uses[i] == more[i],
    ensures
        run_ops(b, uses, k) == run_ops(b, more, k),
    decreases k,
{
    if k > 0 {
        lemma_run_ops_front(b, uses, more, (k - 1) as nat);
    }
}

/// A block that stays by itself: the root of a procedure, of so many batches that no one gains by
/// inlining it.
pub open spec fn stands_alone(b: BuilderModel, u: MastNodeUse) -> bool {
    &&& b.roots.contains(u.node_ref)
    &&& b.nodes[u.node_ref.0 as int].kind matches PendingKind::BasicBlock(batches)
        && batches.len() >= 32
}

/// Every part of a sequence of blocks is what it has to be: a block stays by itself only if it is a
/// procedure that is too long to be inlined, and all others are merged with their neighbours.
pub open spec fn segments_due(b: BuilderModel, parts: Seq<Segment>) -> bool {
    &&& forall|i: int|
        0 <= i < parts.len() ==> match #[trigger] parts[i] {
            Segment::Kept(u) => stands_alone(b, u),
            Segment::Merged(uses) => uses.len() > 0 && forall|j: int|
                0 <= j < uses.len() ==> !stands_alone(b, #[trigger] uses[j]),
        }
    &&& forall|i: int|
        0 <= i < parts.len() - 1 ==> (#[trigger] parts[i]) is Kept || parts[i + 1] is Kept
}

proof fn lemma_segments_upto(b: BuilderModel, uses: Seq<MastNodeUse>, k: nat)
    requires
        block_uses(b, uses),
        k <= uses.len(),
    ensures
        ({
            let (done, open) = segments_upto(b, uses, k);
            &&& segments_ops(b, done) + run_ops(b, open, open.len()) == run_ops(b, uses, k)
            &&& segments_due(b, done)
            &&& done.len() > 0 ==> done.last() is Kept
            &&& forall|j: int| 0 <= j < open.len() ==> !stands_alone(b, #[trigger] open[j])
        }),
    decreases k,
{
    let (done, open) = segments_upto(b, uses, k);
    if k == 0 {
        assert(segments_ops(b, done) + run_ops(b, open, 0) =~= run_ops(b, uses, 0));
    } else {
        lemma_segments_upto(b, uses, (k - 1) as nat);
        let (before, run) = segments_upto(b, uses, (k - 1) as nat);
        let u = uses[k - 1];
        assert(b.has_use(u));
        let all = segments_ops(b, before) + run_ops(b, run, run.len());
        if merges(b, u) {
            lemma_run_ops_front(b, run, open, run.len());
            assert(run_ops(b, open, open.len()) == run_ops(b, run, run.len()) + use_ops(b, u));
            assert(segments_ops(b, done) + run_ops(b, open, open.len()) =~= all + use_ops(b, u));
        } else if run_ops(b, run, run.len()).len() > 0 {
            lemma_segments_ops_push(b, before, Segment::Merged(run));
            lemma_segments_ops_push(b, before.push(Segment::Merged(run)), Segment::Kept(u));
            assert(segments_ops(b, done) + run_ops(b, open, open.len()) =~= all + use_ops(b, u));
            assert forall|i: int| 0 <= i < done.len() implies match #[trigger] done[i] {
                Segment::Kept(u) => stands_alone(b, u),
                Segment::Merged(uses) => uses.len() > 0 && forall|j: int|
                    0 <= j < uses.len() ==> !stands_alone(b, #[trigger] uses[j]),
            } by {
                if i < before.len() {
                    assert(done[i] == before[i]);
                }
            }
            assert forall|i: int| 0 <= i < done.len() - 1 implies (#[trigger] done[i]) is Kept
                || done[i + 1] is Kept by {
                if i < before.len() {
                    assert(done[i] == before[i]);
                }
                if i + 1 < before.len() {
                    assert(done[i + 1] == before[i + 1]);
                }
            }
        } else {
            lemma_segments_ops_push(b, before, Segment::Kept(u));
            assert(run_ops(b, run, run.len()) =~= Seq::empty());
            assert(segments_ops(b, done) + run_ops(b, open, open.len()) =~= all + use_ops(b, u));
            assert forall|i: int| 0 <= i < done.len() implies match #[trigger] done[i] {
                Segment::Kept(u) => stands_alone(b, u),
                Segment::Merged(uses) => uses.len() > 0 && forall|j: int|
                    0 <= j < uses.len() ==> !stands_alone(b, #[trigger] uses[j]),
            } by {
                if i < before.len() {
                    assert(done[i] == before[i]);
                }
            }
            assert forall|i: int| 0 <= i < done.len() - 1 implies (#[trigger] done[i]) is Kept
                || done[i + 1] is Kept by {
                assert(done[i] == before[i]);
                if i + 1 < before.len() {
                    assert(done[i + 1] == before[i + 1]);
                }
            }
        }
    }
}

/// Merging keeps the operations of a sequence of blocks and their order. A block stays by itself if
/// and only if it is a procedure that is too long to be inlined, and what stands between two such
/// blocks becomes one.
pub proof fn law_merging_keeps_operations(b: BuilderModel, uses: Seq<MastNodeUse>)
    requires
        block_uses(b, uses),
    ensures
        segments_ops(b, segments(b, uses)) == run_ops(b, uses, uses.len()),
        segments_due(b, segments(b, uses)),
{
    lemma_segments_upto(b, uses, uses.len());
    let (done, open) = segments_upto(b, uses, uses.len());
    lemma_segments_ops_push(b, done, Segment::Merged(open));
    let parts = segments(b, uses);
    if run_ops(b, open, open.len()).len() > 0 {
        assert forall|i: int| 0 <= i < parts.len() implies match #[trigger] parts[i] {
            Segment::Kept(u) => stands_alone(b, u),
            Segment::Merged(uses) => uses.len() > 0 && forall|j: int|
                0 <= j < uses.len() ==> !stands_alone(b, #[trigger] uses[j]),
        } by {
            if i < done.len() {
                assert(parts[i] == done[i]);
            }
        }
        assert forall|i: int| 0 <= i < parts.len() - 1 implies (#[trigger] parts[i]) is Kept
            || parts[i + 1] is Kept by {
            assert(parts[i] == done[i]);
            if i + 1 < done.len() {
                assert(parts[i + 1] == done[i + 1]);
            }
        }
    } else {
        assert(run_ops(b, open, open.len()) =~= Seq::empty());
        assert(segments_ops(b, done) + run_ops(b, open, open.len()) =~= segments_ops(b, done));
    }
}

// TREES OF JOINS
// ================================================================================================

/// Code that runs one after another.
pub ghost enum Tree {
    Leaf(MastNodeUse),
    Join(MastNodeUse, Box<Tree>, Box<Tree>),
}

impl Tree {
    /// The use that the tree stands for.
    pub open spec fn root(self) -> MastNodeUse {
        match self {
            Tree::Leaf(u) => u,
            Tree::Join(u, _, _) => u,
        }
    }

    /// What runs, from the first to the last.
    pub open spec fn leaves(self) -> Seq<MastNodeUse>
        decreases self,
    {
        match self {
            Tree::Leaf(u) => seq![u],
            Tree::Join(_, left, right) => left.leaves() + right.leaves(),
        }
    }

    /// How many joins lie one below another at most.
    pub open spec fn height(self) -> nat
        decreases self,
    {
        match self {
            Tree::Leaf(_) => 0,
            Tree::Join(_, left, right) => 1 + larger(left.height(), right.height()),
        }
    }

    /// Every inner node of the tree was recorded as a join of what is below it, the left part
    /// before the right one.
    pub open spec fn is_recorded(self) -> bool
        decreases self,
    {
        match self {
            Tree::Leaf(_) => true,
            Tree::Join(u, left, right) => {
                &&& was_recorded_as(PendingKind::Join, seq![left.root(), right.root()], u)
                &&& left.is_recorded()
                &&& right.is_recorded()
            },
        }
    }
}

impl Tree {
    /// The tree joins uses, from the first to the last, to a root.
    pub open spec fn joins(self, uses: Seq<MastNodeUse>, root: MastNodeUse) -> bool {
        &&& self.is_recorded()
        &&& self.root() == root
        &&& self.leaves() == uses
        &&& self.height() <= halvings(uses.len())
    }
}

/// How often a number, rounded up, is halved until no more than one is left.
pub open spec fn halvings(n: nat) -> nat
    decreases n,
{
    if n <= 1 {
        0
    } else {
        1 + halvings((n + 1) / 2)
    }
}

/// The leaves of trees, one tree after another.
pub open spec fn all_leaves(trees: Seq<Tree>) -> Seq<MastNodeUse>
    decreases trees.len(),
{
    if trees.len() == 0 {
        Seq::empty()
    } else {
        all_leaves(trees.drop_last()) + trees.last().leaves()
    }
}

/// Trees for the uses of a level, of at most a height.
pub open spec fn stand_for(trees: Seq<Tree>, level: Seq<MastNodeUse>, height: nat) -> bool {
    &&& trees.len() == level.len()
    &&& forall|i: int|
        0 <= i < trees.len() ==> (#[trigger] trees[i]).root() == level[i]
            && trees[i].is_recorded() && trees[i].height() <= height
}

/// The trees of a level in pairs.
pub open spec fn in_pairs(trees: Seq<Tree>, next: Seq<MastNodeUse>) -> Seq<Tree> {
    Seq::new(
        next.len(),
        |i: int|
            if 2 * i + 1 < trees.len() {
                Tree::Join(next[i], Box::new(trees[2 * i]), Box::new(trees[2 * i + 1]))
            } else {
                trees[2 * i]
            },
    )
}

proof fn lemma_pair_leaves(trees: Seq<Tree>, next: Seq<MastNodeUse>, k: nat)
    requires
        next.len() == (trees.len() + 1) / 2,
        k <= next.len(),
    ensures
        all_leaves(in_pairs(trees, next).take(k as int)) == all_leaves(
            trees.take(smaller(2 * k, trees.len()) as int),
        ),
    decreases k,
{
    let pairs = in_pairs(trees, next);
    if k > 0 {
        lemma_pair_leaves(trees, next, (k - 1) as nat);
        assert(pairs.take(k as int).drop_last() =~= pairs.take(k - 1));
        let at = 2 * (k - 1);
        assert(trees.take(at + 1).drop_last() =~= trees.take(at));
        assert(trees.take(at + 1).last() == trees[at]);
        if at + 1 < trees.len() {
            let upto = trees.take(at + 2);
            assert(upto.drop_last() =~= trees.take(at + 1));
            assert(upto.last() == trees[at + 1]);
            let (left, right) = (trees[at], trees[at + 1]);
            assert(all_leaves(trees.take(at + 1)) == all_leaves(trees.take(at)) + left.leaves());
            assert(all_leaves(upto) == all_leaves(trees.take(at)) + left.leaves() + right.leaves());
            assert(all_leaves(upto) =~= all_leaves(trees.take(at)) + (left.leaves()
                + right.leaves()));
        }
    }
}

/// Two trees whose roots were joined are one.
proof fn lemma_joined_trees(
    b: BuilderModel,
    after: BuilderModel,
    left: Tree,
    right: Tree,
    asm_op: Option<AssemblyOp>,
    u: MastNodeUse,
)
    requires
        join_recorded(b, after, left.root(), right.root(), asm_op, u),
        left.is_recorded(),
        right.is_recorded(),
    ensures
        Tree::Join(u, Box::new(left), Box::new(right)).is_recorded(),
{
    let draft = join_draft(b, left.root(), right.root(), asm_op);
    let both = seq![left.root(), right.root()];
    assert(use_sources(both) =~= seq![left.root().source_ref.0, right.root().source_ref.0]);
    assert(use_nodes(both) =~= draft.child_refs);
    assert(recorded(b, after, draft, use_sources(both), u));
    assert(recorded_as(after, PendingKind::Join, both, u));
    assert(was_recorded_as(PendingKind::Join, both, u));
}

proof fn lemma_paired_trees(
    b: BuilderModel,
    after: BuilderModel,
    uses: Seq<MastNodeUse>,
    asm_op: Option<AssemblyOp>,
    next: Seq<MastNodeUse>,
    below: Seq<Tree>,
    height: nat,
)
    requires
        paired(b, after, uses, asm_op, next),
        stand_for(below, uses, height),
    ensures
        stand_for(
            in_pairs(below, next),
            next,
            if uses.len() <= 1 {
                height
            } else {
                height + 1
            },
        ),
        all_leaves(in_pairs(below, next)) == all_leaves(below),
{
    let steps = choose|steps: Seq<BuilderModel>| #[trigger]
        pairs_joined(steps, uses, asm_op, next) && steps[0] == b && steps.last() == after;
    let trees = in_pairs(below, next);
    assert forall|i: int| 0 <= i < trees.len() implies (#[trigger] trees[i]).root() == next[i]
        && trees[i].is_recorded() && trees[i].height() <= (if uses.len() <= 1 {
        height
    } else {
        height + 1
    }) by {
        let left = below[2 * i];
        assert(left.root() == uses[2 * i]);
        if 2 * i + 1 < below.len() {
            let right = below[2 * i + 1];
            assert(right.root() == uses[2 * i + 1]);
            assert(join_recorded(
                steps[i],
                steps[i + 1],
                uses[2 * i],
                uses[2 * i + 1],
                asm_op,
                next[i],
            ));
            lemma_joined_trees(steps[i], steps[i + 1], left, right, asm_op, next[i]);
        } else {
            assert(next[i] == next.last());
        }
    }
    lemma_pair_leaves(below, next, next.len());
    assert(trees.take(next.len() as int) =~= trees);
    assert(below.take(below.len() as int) =~= below);
}

/// Level `k` of a tree of joins as trees over its leaves.
proof fn lemma_level_trees(
    asm_op: Option<AssemblyOp>,
    levels: Seq<Seq<MastNodeUse>>,
    states: Seq<BuilderModel>,
    k: nat,
) -> (trees: Seq<Tree>)
    requires
        is_tree(asm_op, levels, states),
        k < levels.len(),
    ensures
        halvings(levels[k as int].len()) <= halvings(levels[0].len()),
        stand_for(
            trees,
            levels[k as int],
            (halvings(levels[0].len()) - halvings(levels[k as int].len())) as nat,
        ),
        all_leaves(trees) == levels[0],
    decreases k,
{
    if k == 0 {
        let uses = levels[0];
        let trees = Seq::new(uses.len(), |i: int| Tree::Leaf(uses[i]));
        lemma_single_leaves(uses, uses.len());
        assert(trees.take(uses.len() as int) =~= trees);
        assert(uses.take(uses.len() as int) =~= uses);
        trees
    } else {
        let below = lemma_level_trees(asm_op, levels, states, (k - 1) as nat);
        let uses = levels[k - 1];
        let next = levels[k as int];
        let height = (halvings(levels[0].len()) - halvings(uses.len())) as nat;
        assert(paired(states[k - 1], states[k - 1 + 1], levels[k - 1], asm_op, levels[k - 1 + 1]));
        lemma_paired_trees(states[k - 1], states[k as int], uses, asm_op, next, below, height);
        assert(uses.len() > 1 ==> halvings(uses.len()) == 1 + halvings(next.len()));
        assert(uses.len() <= 1 ==> next.len() == uses.len());
        in_pairs(below, next)
    }
}

proof fn lemma_single_leaves(uses: Seq<MastNodeUse>, k: nat)
    requires
        k <= uses.len(),
    ensures
        all_leaves(Seq::new(uses.len(), |i: int| Tree::Leaf(uses[i])).take(k as int)) == uses.take(
            k as int,
        ),
    decreases k,
{
    let trees = Seq::new(uses.len(), |i: int| Tree::Leaf(uses[i]));
    if k > 0 {
        lemma_single_leaves(uses, (k - 1) as nat);
        assert(trees.take(k as int).drop_last() =~= trees.take(k - 1));
        assert(uses.take(k as int) =~= uses.take(k - 1) + seq![uses[k - 1]]);
    } else {
        assert(all_leaves(trees.take(0)) =~= uses.take(0));
    }
}

/// The tree for a level of one use.
proof fn lemma_last_tree(trees: Seq<Tree>, level: Seq<MastNodeUse>, uses: Seq<MastNodeUse>)
    requires
        level.len() == 1,
        stand_for(trees, level, (halvings(uses.len()) - halvings(level.len())) as nat),
        all_leaves(trees) == uses,
    ensures
        trees[0].joins(uses, level[0]),
{
    let tree = trees[0];
    assert(trees.len() == 1);
    assert(trees.last() == tree);
    assert(all_leaves(trees.drop_last()).len() == 0);
    assert(all_leaves(trees) == all_leaves(trees.drop_last()) + tree.leaves());
    assert(all_leaves(trees) =~= tree.leaves());
    assert(tree.root() == level[0]);
}

/// The root of joined uses is a tree whose leaves, from left to right, are the uses in their order:
/// nothing is lost, repeated or moved. No more joins lie one below another than it takes to halve
/// the number of uses down to one.
pub proof fn law_joins_keep_the_order(
    b: BuilderModel,
    after: BuilderModel,
    uses: Seq<MastNodeUse>,
    asm_op: Option<AssemblyOp>,
    root: MastNodeUse,
)
    requires
        joined(b, after, uses, asm_op, root),
    ensures
        exists|tree: Tree| #[trigger] tree.joins(uses, root),
{
    let (levels, states) = choose|levels: Seq<Seq<MastNodeUse>>, states: Seq<BuilderModel>|
        #[trigger]
        is_tree(asm_op, levels, states) && levels[0] == uses && levels.last()[0] == root
            && states[0] == b && states.last() == after;
    let trees = lemma_level_trees(asm_op, levels, states, (levels.len() - 1) as nat);
    lemma_last_tree(trees, levels.last(), uses);
}

// LIMITS
// ================================================================================================

/// How deep control flow is nested in an op.
pub open spec fn nesting(op: Op) -> nat
    decreases op, 0nat,
{
    match op {
        Op::Inst(_) => 0,
        Op::If { span: _, asm_op: _, then_blk, else_blk } => 1 + larger(
            body_nesting(then_blk@, then_blk@.len()),
            body_nesting(else_blk@, else_blk@.len()),
        ),
        Op::Repeat { span: _, count: _, body } => 1 + body_nesting(body@, body@.len()),
        Op::While { span: _, asm_op: _, body } => 1 + body_nesting(body@, body@.len()),
        Op::DoWhile { span: _, asm_op: _, body } => 1 + body_nesting(body@, body@.len()),
    }
}

/// How deep control flow is nested in the first `k` ops of a body.
pub open spec fn body_nesting(body: Seq<Op>, k: nat) -> nat
    decreases body, k,
{
    if k == 0 || k > body.len() {
        0
    } else {
        larger(body_nesting(body, (k - 1) as nat), nesting(body[k - 1]))
    }
}

/// Everything that an op refers to is there, and everything that it repeats is repeated at least
/// once and no more often than is allowed. A syscall of code that is linked leads into the kernel,
/// if there is one.
pub open spec fn op_allowed(a: Assembler, procs: Seq<ProcedureEntry>, op: Op) -> bool
    decreases op, 0nat,
{
    match op {
        Op::Inst(Instruction::Exec { span: _, target }) => !(target_plan(procs, target) is Missing),
        Op::Inst(Instruction::Call { span: _, target, is_syscall, asm_op: _ }) => match target_plan(
            procs,
            target,
        ) {
            TargetPlan::Missing(_) => false,
            TargetPlan::Body(_) => true,
            TargetPlan::Link(compiled) => is_syscall ==> a.kernel@.len() == 0 || a.kernel@.contains(
                compiled.mast_root,
            ),
        },
        Op::Inst(_) => true,
        Op::If { span: _, asm_op: _, then_blk, else_blk } => body_allowed(
            a,
            procs,
            then_blk@,
            then_blk@.len(),
        ) && body_allowed(a, procs, else_blk@, else_blk@.len()),
        Op::Repeat { span: _, count, body } => 1 <= count <= a.max_repeat_count && body_allowed(
            a,
            procs,
            body@,
            body@.len(),
        ),
        Op::While { span: _, asm_op: _, body } => body_allowed(a, procs, body@, body@.len()),
        Op::DoWhile { span: _, asm_op: _, body } => body_allowed(a, procs, body@, body@.len()),
    }
}

pub open spec fn body_allowed(
    a: Assembler,
    procs: Seq<ProcedureEntry>,
    body: Seq<Op>,
    k: nat,
) -> bool
    decreases body, k,
{
    if k == 0 || k > body.len() {
        true
    } else {
        body_allowed(a, procs, body, (k - 1) as nat) && op_allowed(a, procs, body[k - 1])
    }
}

proof fn lemma_op_limits(a: Assembler, procs: Seq<ProcedureEntry>, op: Op, depth: nat)
    requires
        depth <= a.max_nesting,
    ensures
        op_fault(a, procs, op, depth) is None <==> op_allowed(a, procs, op) && depth + nesting(op)
            <= a.max_nesting,
    decreases op, 0nat,
{
    if depth < a.max_nesting {
        match op {
            Op::If { span: _, asm_op: _, then_blk, else_blk } => {
                lemma_body_limits(a, procs, then_blk@, depth + 1, then_blk@.len());
                lemma_body_limits(a, procs, else_blk@, depth + 1, else_blk@.len());
            },
            Op::Repeat { span: _, count: _, body } => {
                lemma_body_limits(a, procs, body@, depth + 1, body@.len());
            },
            Op::While { span: _, asm_op: _, body } => {
                lemma_body_limits(a, procs, body@, depth + 1, body@.len());
            },
            Op::DoWhile { span: _, asm_op: _, body } => {
                lemma_body_limits(a, procs, body@, depth + 1, body@.len());
            },
            _ => {},
        }
    }
}

proof fn lemma_body_limits(
    a: Assembler,
    procs: Seq<ProcedureEntry>,
    body: Seq<Op>,
    depth: nat,
    k: nat,
)
    requires
        k <= body.len(),
        depth <= a.max_nesting,
    ensures
        body_fault(a, procs, body, depth, k) is None <==> body_allowed(a, procs, body, k) && depth
            + body_nesting(body, k) <= a.max_nesting,
    decreases body, k,
{
    if k > 0 {
        lemma_body_limits(a, procs, body, depth, (k - 1) as nat);
        lemma_op_limits(a, procs, body[k - 1], depth);
    }
}

/// A body has no fault if and only if control flow is nested in it no deeper than is allowed, all
/// counts of repetitions are from one to the largest that is allowed, all procedures that it
/// invokes are known, and its syscalls lead into the kernel.
pub proof fn law_bodies_without_fault_keep_the_limits(
    a: Assembler,
    procs: Seq<ProcedureEntry>,
    body: Seq<Op>,
)
    ensures
        body_fault(a, procs, body, 0, body.len()) is None <==> body_allowed(
            a,
            procs,
            body,
            body.len(),
        ) && body_nesting(body, body.len()) <= a.max_nesting,
{
    lemma_body_limits(a, procs, body, 0, body.len());
}

/// What is repeated is there as often as it is to be repeated, one behind the other, and everything
/// else once.
pub proof fn law_repetitions_are_counted(body: Seq<Op>, w: Steps, i: int)
    requires
        0 <= i < body.len(),
    ensures
        ({
            let uses = with_part(body, w, Part::Node(i));
            let count: nat = match body[i] {
                Op::Repeat { span: _, count, body: _ } => count as nat,
                _ => 1,
            };
            &&& uses.len() == w.uses.len() + count
            &&& uses.take(w.uses.len() as int) == w.uses
            &&& forall|j: int| w.uses.len() <= j < uses.len() ==> #[trigger] uses[j] == w.u1
        }),
{
    let uses = with_part(body, w, Part::Node(i));
    assert(uses.take(w.uses.len() as int) =~= w.uses);
}

/// An op stands under the inlined calls that were noted last before it, and under those of the body
/// if there is no such note.
pub proof fn law_notes_hold_until_the_next(
    body: Seq<Op>,
    active: Seq<DebugSourceInlineCall>,
    k: nat,
    j: int,
)
    requires
        k <= body.len(),
        -1 <= j < k,
        forall|i: int|
            j < i < k ==> !((#[trigger] body[i]) is Inst && body[i]->Inst_0 is Inline),
        j >= 0 ==> body[j] is Inst && body[j]->Inst_0 is Inline,
    ensures
        chain_at(body, active, k) == if j < 0 {
            active
        } else {
            (body[j]->Inst_0)->Inline_0@
        },
    decreases k,
{
    if k > 0 && j < k - 1 {
        law_notes_hold_until_the_next(body, active, (k - 1) as nat, j);
    }
}

/// Rows stay with their operations when operations are put behind others.
pub proof fn law_rows_follow_their_operations(block: Pending, ops: Seq<Operation>, rows: RowsModel)
    requires
        rows_fit(rows, block.ops.len()),
        block.ops.len() <= u32::MAX,
    ensures
        ({
            let all = block.extended(ops, rows);
            let n = block.rows.asm_ops.len();
            let m = block.rows.debug_vars.len();
            let l = block.rows.inline_calls.len();
            &&& all.rows.asm_ops.len() == n + rows.asm_ops.len()
            &&& forall|i: int| 0 <= i < n ==> #[trigger] all.rows.asm_ops[i] == block.rows.asm_ops[i]
            &&& forall|i: int|
                0 <= i < rows.asm_ops.len() && rows.asm_ops[i].op_idx < ops.len() ==> all.ops[(
                #[trigger] all.rows.asm_ops[n + i]).op_idx as int]
                    == ops[rows.asm_ops[i].op_idx as int] && all.rows.asm_ops[n + i].op_idx
                    >= block.ops.len()
            &&& all.rows.debug_vars.len() == m + rows.debug_vars.len()
            &&& forall|i: int|
                0 <= i < m ==> #[trigger] all.rows.debug_vars[i] == block.rows.debug_vars[i]
            &&& forall|i: int|
                0 <= i < rows.debug_vars.len() && rows.debug_vars[i].op_idx < ops.len()
                    ==> all.ops[(#[trigger] all.rows.debug_vars[m + i]).op_idx as int]
                    == ops[rows.debug_vars[i].op_idx as int] && all.rows.debug_vars[m + i].op_idx
                    >= block.ops.len()
            &&& all.rows.inline_calls.len() == l + rows.inline_calls.len()
            &&& forall|i: int|
                0 <= i < l ==> #[trigger] all.rows.inline_calls[i] == block.rows.inline_calls[i]
            &&& forall|i: int|
                0 <= i < rows.inline_calls.len() && rows.inline_calls[i].op_idx < ops.len()
                    ==> all.ops[(#[trigger] all.rows.inline_calls[l + i]).op_idx as int]
                    == ops[rows.inline_calls[i].op_idx as int]
                    && all.rows.inline_calls[l + i].op_idx >= block.ops.len()
        }),
{
    assert(forall|i: int|
        0 <= i < rows.asm_ops.len() ==> (#[trigger] rows.asm_ops[i]).op_idx + block.ops.len()
            <= u32::MAX);
}

// USES IN ORDER
// ================================================================================================

/// What an instruction is compiled to comes behind the block of the operations before it, if there
/// are any, and both come behind everything before.
#[verifier::spinoff_prover]
#[verifier::rlimit(60)]
pub proof fn law_invocations_come_behind_their_block(
    a: Assembler,
    procs: Seq<ProcedureEntry>,
    b: BuilderModel,
    after: BuilderModel,
    body: Seq<Op>,
    active: Seq<DebugSourceInlineCall>,
    begin: AssemblyOp,
    i: int,
    block: Pending,
    w: Steps,
)
    requires
        part_built(a, procs, b, after, body, active, begin, Part::Invoked(i, block), w),
    ensures
        ({
            let uses = with_part(body, w, Part::Invoked(i, block));
            let n = uses.len();
            &&& uses.take(w.uses.len() as int) == w.uses
            &&& n > w.uses.len()
            &&& exists|mid: BuilderModel| #[trigger]
                node_built(
                    a,
                    procs,
                    b,
                    mid,
                    body[i],
                    chain_at(body, active, i as nat),
                    begin,
                    uses[n - 1],
                )
            &&& block.ops.len() == 0 ==> n == w.uses.len() + 1
            &&& block.ops.len() > 0 ==> n == w.uses.len() + 2 && was_block(block.ops, uses[n - 2])
        }),
{
    let uses = with_part(body, w, Part::Invoked(i, block));
    assert(uses.take(w.uses.len() as int) =~= w.uses);
    assert(node_built(
        a,
        procs,
        b,
        w.s2,
        body[i],
        chain_at(body, active, i as nat),
        begin,
        w.u1,
    ));
    if block.ops.len() > 0 {
        assert(block_built(w.s2, after, block, w.u2));
        assert(was_block(block.ops, w.u2));
        assert(uses[uses.len() - 2] == w.u2);
    }
    assert(uses[uses.len() - 1] == w.u1);
}

/// A body of nothing is a block of one operation without effect, under the inlined calls that hold
/// at its end; any other body is joined from what
/// its parts were compiled to, after blocks that stand side by side became one.
pub proof fn law_empty_bodies_do_nothing(
    b: BuilderModel,
    after: BuilderModel,
    uses: Seq<MastNodeUse>,
    chain: Seq<DebugSourceInlineCall>,
    begin: AssemblyOp,
    u: MastNodeUse,
)
    requires
        body_closed(b, after, uses, chain, begin, u),
    ensures
        uses.len() == 0 ==> was_noop(chain, u),
        uses.len() > 0 ==> exists|tree: Tree, mid: BuilderModel, merged: Seq<MastNodeUse>| #[trigger]
            tree.joins(merged, u) && #[trigger] merged_stretches(b, mid, uses, merged),
{
    if uses.len() == 0 {
        assert(block_built(b, after, noop_block(chain), u));
    } else {
        let (mid, merged) = choose|mid: BuilderModel, merged: Seq<MastNodeUse>| #[trigger]
            merged_stretches(b, mid, uses, merged) && joined(mid, after, merged, Some(begin), u);
        law_joins_keep_the_order(mid, after, merged, Some(begin), u);
        let tree = choose|tree: Tree| #[trigger] tree.joins(merged, u);
        assert(tree.joins(merged, u) && merged_stretches(b, mid, uses, merged));
    }
}

pub open spec fn maybe(u: Option<MastNodeUse>) -> Seq<MastNodeUse> {
    match u {
        Some(u) => seq![u],
        None => Seq::empty(),
    }
}

proof fn lemma_pieces_split(pieces: Seq<Piece>)
    requires
        pieces.len() > 0,
    ensures
        pieces_in(pieces) == pieces[0].stretch + maybe(pieces[0].other) + pieces_in(pieces.skip(1)),
        pieces_out(pieces) == pieces[0].out + maybe(pieces[0].other) + pieces_out(pieces.skip(1)),
    decreases pieces.len(),
{
    let first = pieces[0];
    let front = pieces.drop_last();
    let last = pieces.last();
    let rest = pieces.skip(1);
    if pieces.len() == 1 {
        assert(pieces_in(front).len() == 0 && pieces_out(front).len() == 0);
        assert(pieces_in(rest).len() == 0 && pieces_out(rest).len() == 0);
        assert(pieces_in(pieces) =~= first.stretch + maybe(first.other) + pieces_in(rest));
        assert(pieces_out(pieces) =~= first.out + maybe(first.other) + pieces_out(rest));
    } else {
        lemma_pieces_split(front);
        assert(front.skip(1) =~= rest.drop_last());
        assert(rest.last() == last);
        let head = first.stretch + maybe(first.other);
        let between = pieces_in(rest.drop_last());
        assert(pieces_in(rest) == between + last.stretch + maybe(last.other));
        assert(pieces_in(pieces) == head + between + last.stretch + maybe(last.other));
        assert(pieces_in(pieces) =~= head + pieces_in(rest));
        let out = first.out + maybe(first.other);
        let along = pieces_out(rest.drop_last());
        assert(pieces_out(rest) == along + last.out + maybe(last.other));
        assert(pieces_out(pieces) == out + along + last.out + maybe(last.other));
        assert(pieces_out(pieces) =~= out + pieces_out(rest));
    }
}

/// What stands side by side becomes one without moving past anything else: what uses become starts
/// with what their first stretch of blocks becomes, goes on with the node behind it, as it is, and
/// ends with what the rest becomes.
pub open spec fn merged_from_the_front(
    b: BuilderModel,
    mid: BuilderModel,
    after: BuilderModel,
    first: Piece,
    uses: Seq<MastNodeUse>,
    result: Seq<MastNodeUse>,
    rest: Seq<MastNodeUse>,
    ends: Seq<MastNodeUse>,
) -> bool {
    &&& piece_holds(first)
    &&& first.at == b
    &&& first.end == mid
    &&& uses == first.stretch + maybe(first.other) + rest
    &&& result == first.out + maybe(first.other) + ends
    &&& merged_stretches(mid, after, rest, ends)
    &&& first.other is None ==> rest.len() == 0
}

/// Merging the blocks among uses keeps everything in its place.
pub proof fn law_stretches_are_merged_in_place(
    b: BuilderModel,
    after: BuilderModel,
    uses: Seq<MastNodeUse>,
    result: Seq<MastNodeUse>,
)
    requires
        merged_stretches(b, after, uses, result),
        uses.len() > 0,
    ensures
        exists|mid: BuilderModel, first: Piece, rest: Seq<MastNodeUse>, ends: Seq<MastNodeUse>|
            #[trigger]
            merged_from_the_front(b, mid, after, first, uses, result, rest, ends),
{
    let pieces = choose|pieces: Seq<Piece>| #[trigger]
        pieces_hold(b, after, pieces) && pieces_in(pieces) == uses && pieces_out(pieces) == result
            && forall|k: int|
            0 <= k < pieces.len() - 1 ==> (#[trigger] pieces[k]).other is Some;
    lemma_pieces_split(pieces);
    let first = pieces[0];
    let others = pieces.skip(1);
    let rest = pieces_in(others);
    let ends = pieces_out(others);
    assert(piece_holds(pieces[0]));
    assert(pieces_hold(first.end, after, others)) by {
        assert forall|k: int| 0 <= k < others.len() implies piece_holds(#[trigger] others[k]) by {
            assert(others[k] == pieces[k + 1]);
        }
        assert forall|k: int| 0 < k < others.len() implies (#[trigger] others[k]).at == others[k
            - 1].end by {
            assert(pieces[k + 1].at == pieces[k].end);
        }
        if others.len() > 0 {
            assert(pieces[1].at == pieces[0].end);
            assert(others.last() == pieces.last());
        }
    }
    assert forall|k: int| 0 <= k < others.len() - 1 implies (#[trigger] others[k]).other is Some by {
        assert(pieces[k + 1].other is Some);
    }
    assert(merged_stretches(first.end, after, rest, ends));
    if first.other is None {
        assert(pieces.len() == 1);
        assert(others.len() == 0);
    }
    assert(merged_from_the_front(b, first.end, after, first, uses, result, rest, ends));
}

/// A target that was compiled is used as it was compiled; one that was not, but comes from a library,
/// is linked; and one that is known by its root alone is linked without a hint.
pub proof fn law_targets_are_used_as_they_were_compiled(
    procs: Seq<ProcedureEntry>,
    gid: GlobalItemIndex,
    compiled: Option<CompiledProcedure>,
    root: Word,
)
    ensures
        match target_plan(procs, Target::Item { gid, compiled }) {
            TargetPlan::Body(u) => exists|i: int|
                0 <= i < procs.len() && (#[trigger] procs[i]).gid == gid
                    && procs[i].procedure.body_node_ref == u.node_ref
                    && procs[i].procedure.body_source_ref == u.source_ref,
            TargetPlan::Link(c) => compiled == Some(c) && forall|i: int|
                0 <= i < procs.len() ==> (#[trigger] procs[i]).gid != gid,
            TargetPlan::Missing(g) => g == gid && compiled is None && forall|i: int|
                0 <= i < procs.len() ==> (#[trigger] procs[i]).gid != gid,
        },
        target_plan(procs, Target::Root(root)) matches TargetPlan::Link(c) && c.mast_root == root
            && c.hint.commitment is None && c.hint.root is None && c.hint.source is None,
{
    lemma_first_procedure(procs, gid, procs.len());
}

proof fn lemma_first_procedure(procs: Seq<ProcedureEntry>, gid: GlobalItemIndex, k: nat)
    requires
        k <= procs.len(),
    ensures
        match procedure_index(procs, gid, k) {
            Some(i) => i < k && procs[i as int].gid == gid,
            None => forall|i: int| 0 <= i < k ==> (#[trigger] procs[i]).gid != gid,
        },
    decreases k,
{
    if k > 0 {
        lemma_first_procedure(procs, gid, (k - 1) as nat);
    }
}

/// What a fault tells is so: control flow is nested deeper than the limit that is told, a count of
/// repetitions is none or too many, code that a syscall leads to is not in the kernel, and a
/// procedure that is missed is not known.
pub open spec fn fault_is_real(
    a: Assembler,
    procs: Seq<ProcedureEntry>,
    e: CompileError,
    reached: nat,
) -> bool {
    match e {
        CompileError::ControlFlowNestingDepthExceeded { span: _, max_depth } => max_depth
            == a.max_nesting && reached > a.max_nesting,
        CompileError::InvalidRepeatCount { span: _, count } => count == 0 || count
            > a.max_repeat_count,
        CompileError::InvalidSysCallTarget { span: _, callee } => a.kernel@.len() > 0
            && !a.kernel@.contains(callee),
        CompileError::MissingProcedure { gid } => forall|i: int|
            0 <= i < procs.len() ==> (#[trigger] procs[i]).gid != gid,
        CompileError::Link(_) => false,
        CompileError::Build(_) => false,
    }
}

/// The fault of an op is real.
pub proof fn law_faults_are_real(a: Assembler, procs: Seq<ProcedureEntry>, op: Op, depth: nat)
    requires
        depth <= a.max_nesting,
    ensures
        op_fault(a, procs, op, depth) matches Some(e) ==> fault_is_real(
            a,
            procs,
            e,
            depth + nesting(op),
        ),
    decreases op, 0nat,
{
    match op {
        Op::Inst(Instruction::Exec { span: _, target }) => lemma_target_fault(procs, target),
        Op::Inst(Instruction::Call { span: _, target, is_syscall: _, asm_op: _ }) => {
            lemma_target_fault(procs, target)
        },
        Op::Inst(_) => {},
        Op::If { span: _, asm_op: _, then_blk, else_blk } => {
            if depth < a.max_nesting {
                lemma_body_fault_real(a, procs, then_blk@, depth + 1, then_blk@.len());
                lemma_body_fault_real(a, procs, else_blk@, depth + 1, else_blk@.len());
            }
        },
        Op::Repeat { span: _, count: _, body } => {
            if depth < a.max_nesting {
                lemma_body_fault_real(a, procs, body@, depth + 1, body@.len());
            }
        },
        Op::While { span: _, asm_op: _, body } => {
            if depth < a.max_nesting {
                lemma_body_fault_real(a, procs, body@, depth + 1, body@.len());
            }
        },
        Op::DoWhile { span: _, asm_op: _, body } => {
            if depth < a.max_nesting {
                lemma_body_fault_real(a, procs, body@, depth + 1, body@.len());
            }
        },
    }
}

proof fn lemma_target_fault(procs: Seq<ProcedureEntry>, target: Target)
    ensures
        target_plan(procs, target) matches TargetPlan::Missing(gid) ==> forall|i: int|
            0 <= i < procs.len() ==> (#[trigger] procs[i]).gid != gid,
{
    if let Target::Item { gid, compiled: _ } = target {
        lemma_first_procedure(procs, gid, procs.len());
    }
}

proof fn lemma_body_fault_real(
    a: Assembler,
    procs: Seq<ProcedureEntry>,
    body: Seq<Op>,
    depth: nat,
    k: nat,
)
    requires
        k <= body.len(),
        depth <= a.max_nesting,
    ensures
        body_fault(a, procs, body, depth, k) matches Some(e) ==> fault_is_real(
            a,
            procs,
            e,
            depth + body_nesting(body, k),
        ),
    decreases body, k,
{
    if k > 0 {
        lemma_body_fault_real(a, procs, body, depth, (k - 1) as nat);
        law_faults_are_real(a, procs, body[k - 1], depth);
    }
}

} // verus!
