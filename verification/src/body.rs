//! Compiling the bodies of procedures.

use vstd::prelude::*;

use crate::batch::batched;
use crate::builder::{
    control_draft, digest_of_ref, extends, find_decorated, lemma_extends_refl, lemma_extends_trans,
    record_failed, recorded, spent, AssemblyOp, BuilderModel, DecoratedModel, MastForestBuilder,
};
use crate::debug_info::{copy_vec, DebugSourceInlineCall};
use crate::felt::Word;
use crate::hasher::merge_in_domain_spec;
use crate::merge::{
    block_draft, can_move, join_failed, joined, merged_stretches, move_asm_ops, move_call_frames, move_debug_vars,
    move_inline_calls, moved_asm_ops, moved_call_frames, moved_debug_vars, moved_inline_calls,
    BlockRows, RowsModel,
};
use crate::node::{
    CALL_DOMAIN, DYNCALL_DOMAIN, DYN_DOMAIN, LOOP_DOMAIN, SPLIT_DOMAIN, SYSCALL_DOMAIN,
};
use crate::operation::Operation;
use crate::path::{GlobalItemIndex, SourceSpan};
use crate::pending::{DraftModel, MastNodeUse, PendingKind, SourceNodeRef};
use crate::procedures::procedure_index;
use crate::linked_names::{keeps_imports, law_imports_stay_known};
use crate::registry::{same_procedures, ProcedureEntry};
use crate::source_graph::{appended, clone_failed, copies_of, decorated, BuildError};
use crate::static_import::{link_failed, linked_as, LinkHint, StaticImportError, StaticLibraries};

verus! {

/// A procedure of a library.
#[derive(Clone, Copy, PartialEq, Eq, Structural, Debug)]
pub struct CompiledProcedure {
    pub mast_root: Word,
    pub hint: LinkHint,
}

/// What is invoked.
#[derive(Clone, Copy, PartialEq, Eq, Structural, Debug)]
pub enum Target {
    /// An item of a module; if it is one of a library, what is known of it.
    Item { gid: GlobalItemIndex, compiled: Option<CompiledProcedure> },
    /// A procedure by its digest.
    Root(Word),
}

/// Operations of a block, with rows whose indices count from the first of them.
pub struct BlockPiece {
    pub ops: Vec<Operation>,
    pub rows: BlockRows,
}

/// An instruction.
pub enum Instruction {
    /// Operations that go to the current block.
    Basic(BlockPiece),
    /// The inlined calls under which what follows stands.
    Inline(Vec<DebugSourceInlineCall>),
    /// Executes a procedure in place.
    Exec { span: SourceSpan, target: Target },
    /// Calls a procedure, or one of the kernel.
    Call { span: SourceSpan, target: Target, is_syscall: bool, asm_op: AssemblyOp },
    /// Executes or calls what the stack names.
    Dyn { is_dyncall: bool, asm_op: AssemblyOp },
}

/// A part of a body.
pub enum Op {
    Inst(Instruction),
    If { span: SourceSpan, asm_op: AssemblyOp, then_blk: Vec<Op>, else_blk: Vec<Op> },
    Repeat { span: SourceSpan, count: u32, body: Vec<Op> },
    /// A loop with its condition at the head.
    While { span: SourceSpan, asm_op: AssemblyOp, body: Vec<Op> },
    /// A loop with its condition at the tail: the condition is the end of the body.
    DoWhile { span: SourceSpan, asm_op: AssemblyOp, body: Vec<Op> },
}

/// Why a body cannot be compiled.
#[derive(Clone, Copy, PartialEq, Eq, Structural, Debug)]
pub enum CompileError {
    ControlFlowNestingDepthExceeded { span: SourceSpan, max_depth: usize },
    InvalidRepeatCount { span: SourceSpan, count: u32 },
    /// A kernel call of something that is not in the kernel.
    InvalidSysCallTarget { span: SourceSpan, callee: Word },
    /// A procedure is invoked that was not compiled before.
    MissingProcedure { gid: GlobalItemIndex },
    Link(StaticImportError),
    Build(BuildError),
}

/// What bodies are compiled against.
pub struct Assembler {
    pub libraries: StaticLibraries,
    /// The procedures of the kernel; none if there is no kernel.
    pub kernel: Vec<Word>,
    pub max_nesting: usize,
    pub max_repeat_count: u32,
}

impl Assembler {
    pub open spec fn wf(self) -> bool {
        self.libraries.wf() && self.max_nesting < usize::MAX
    }
}

// WELL-FORMED BODIES
// ================================================================================================

pub open spec fn ops_ok(ops: Seq<Operation>) -> bool {
    forall|i: int| 0 <= i < ops.len() ==> (#[trigger] ops[i]).wf()
}

pub open spec fn target_ok(target: Target) -> bool {
    match target {
        Target::Item { gid: _, compiled } => compiled matches Some(c) ==> c.mast_root.wf(),
        Target::Root(root) => root.wf(),
    }
}

/// The values in a body are field elements.
pub open spec fn body_ok(body: Seq<Op>) -> bool
    decreases body,
{
    forall|i: int| 0 <= i < body.len() ==> op_ok(#[trigger] body[i])
}

pub open spec fn op_ok(op: Op) -> bool
    decreases op,
{
    match op {
        Op::Inst(Instruction::Basic(piece)) => ops_ok(piece.ops@),
        Op::Inst(Instruction::Exec { span: _, target }) => target_ok(target),
        Op::Inst(Instruction::Call { span: _, target, is_syscall: _, asm_op: _ }) => target_ok(
            target,
        ),
        Op::Inst(_) => true,
        Op::If { span: _, asm_op: _, then_blk, else_blk } => body_ok(then_blk@) && body_ok(
            else_blk@,
        ),
        Op::Repeat { span: _, count: _, body } => body_ok(body@),
        Op::While { span: _, asm_op: _, body } => body_ok(body@),
        Op::DoWhile { span: _, asm_op: _, body } => body_ok(body@),
    }
}

/// The bodies of known procedures are in the builder.
pub open spec fn bodies_known(b: BuilderModel, procs: Seq<ProcedureEntry>) -> bool {
    forall|i: int| 0 <= i < procs.len() ==> b.has_use((#[trigger] procs[i]).procedure.body())
}

pub proof fn lemma_bodies_stay(b: BuilderModel, after: BuilderModel, procs: Seq<ProcedureEntry>)
    requires
        extends(b, after),
        bodies_known(b, procs),
    ensures
        bodies_known(after, procs),
{
    assert forall|i: int| 0 <= i < procs.len() implies after.has_use(
        (#[trigger] procs[i]).procedure.body(),
    ) by {
        assert(b.has_use(procs[i].procedure.body()));
    }
}

// FAULTS
// ================================================================================================

/// How a target is reached.
pub enum TargetPlan {
    /// It was compiled.
    Body(MastNodeUse),
    /// It is linked.
    Link(CompiledProcedure),
    Missing(GlobalItemIndex),
}

pub open spec fn no_hint() -> LinkHint {
    LinkHint { commitment: None, root: None, source: None }
}

pub open spec fn target_plan(procs: Seq<ProcedureEntry>, target: Target) -> TargetPlan {
    match target {
        Target::Root(mast_root) => TargetPlan::Link(
            CompiledProcedure { mast_root, hint: no_hint() },
        ),
        Target::Item { gid, compiled } => match procedure_index(procs, gid, procs.len()) {
            Some(i) => TargetPlan::Body(procs[i as int].procedure.body()),
            None => match compiled {
                Some(compiled) => TargetPlan::Link(compiled),
                None => TargetPlan::Missing(gid),
            },
        },
    }
}

/// What is wrong with invoking a target: kernel calls have to lead to the kernel, if there is one.
pub open spec fn target_fault(
    kernel: Seq<Word>,
    procs: Seq<ProcedureEntry>,
    target: Target,
    is_syscall: bool,
    span: SourceSpan,
) -> Option<CompileError> {
    match target_plan(procs, target) {
        TargetPlan::Body(_) => None,
        TargetPlan::Missing(gid) => Some(CompileError::MissingProcedure { gid }),
        TargetPlan::Link(compiled) => if is_syscall && kernel.len() > 0 && !kernel.contains(
            compiled.mast_root,
        ) {
            Some(CompileError::InvalidSysCallTarget { span, callee: compiled.mast_root })
        } else {
            None
        },
    }
}

/// The first thing that is wrong with an op at a depth.
pub open spec fn op_fault(
    a: Assembler,
    procs: Seq<ProcedureEntry>,
    op: Op,
    depth: nat,
) -> Option<CompileError>
    decreases op, 0nat,
{
    match op {
        Op::Inst(Instruction::Exec { span, target }) => target_fault(
            a.kernel@,
            procs,
            target,
            false,
            span,
        ),
        Op::Inst(Instruction::Call { span, target, is_syscall, asm_op: _ }) => target_fault(
            a.kernel@,
            procs,
            target,
            is_syscall,
            span,
        ),
        Op::Inst(_) => None,
        Op::If { span, asm_op: _, then_blk, else_blk } => if depth >= a.max_nesting {
            Some(too_deep(a, span))
        } else {
            match body_fault(a, procs, then_blk@, depth + 1, then_blk@.len()) {
                Some(e) => Some(e),
                None => body_fault(a, procs, else_blk@, depth + 1, else_blk@.len()),
            }
        },
        Op::Repeat { span, count, body } => if depth >= a.max_nesting {
            Some(too_deep(a, span))
        } else {
            match body_fault(a, procs, body@, depth + 1, body@.len()) {
                Some(e) => Some(e),
                None => if count == 0 || count > a.max_repeat_count {
                    Some(CompileError::InvalidRepeatCount { span, count })
                } else {
                    None
                },
            }
        },
        Op::While { span, asm_op: _, body } => if depth >= a.max_nesting {
            Some(too_deep(a, span))
        } else {
            body_fault(a, procs, body@, depth + 1, body@.len())
        },
        Op::DoWhile { span, asm_op: _, body } => if depth >= a.max_nesting {
            Some(too_deep(a, span))
        } else {
            body_fault(a, procs, body@, depth + 1, body@.len())
        },
    }
}

pub open spec fn too_deep(a: Assembler, span: SourceSpan) -> CompileError {
    CompileError::ControlFlowNestingDepthExceeded { span, max_depth: a.max_nesting }
}

/// The first thing that is wrong with the first `k` ops of a body at a depth.
pub open spec fn body_fault(
    a: Assembler,
    procs: Seq<ProcedureEntry>,
    body: Seq<Op>,
    depth: nat,
    k: nat,
) -> Option<CompileError>
    decreases body, k,
{
    if k == 0 || k > body.len() {
        None
    } else {
        match body_fault(a, procs, body, depth, (k - 1) as nat) {
            Some(e) => Some(e),
            None => op_fault(a, procs, body[k - 1], depth),
        }
    }
}

proof fn lemma_body_fault(
    a: Assembler,
    procs: Seq<ProcedureEntry>,
    body: Seq<Op>,
    depth: nat,
    k: nat,
    n: nat,
)
    requires
        k <= n <= body.len(),
        body_fault(a, procs, body, depth, k) is Some,
    ensures
        body_fault(a, procs, body, depth, n) == body_fault(a, procs, body, depth, k),
    decreases n - k,
{
    if k < n {
        lemma_body_fault(a, procs, body, depth, k, (n - 1) as nat);
    }
}

/// A procedure cannot be linked.
pub open spec fn link_refused(
    a: Assembler,
    compiled: CompiledProcedure,
    b: BuilderModel,
    after: BuilderModel,
    e: StaticImportError,
) -> bool {
    match a.libraries.link_plan(compiled.hint, compiled.mast_root) {
        Err(refusal) => refusal == e && after == b,
        Ok(plan) => link_failed(a.libraries, plan, compiled.mast_root, b, after, e),
    }
}

/// An error is the first thing that is wrong, or one of building or linking, which the work itself
/// ran into.
pub open spec fn error_explained(
    e: CompileError,
    fault: Option<CompileError>,
    failed: bool,
) -> bool {
    match e {
        CompileError::Build(_) => failed,
        CompileError::Link(_) => failed,
        _ => fault == Some(e),
    }
}

// BLOCKS
// ================================================================================================

/// A block that is being filled.
pub ghost struct Pending {
    pub ops: Seq<Operation>,
    pub rows: RowsModel,
}

pub open spec fn no_rows() -> RowsModel {
    RowsModel {
        asm_ops: Seq::empty(),
        debug_vars: Seq::empty(),
        inline_calls: Seq::empty(),
        call_frames: Seq::empty(),
    }
}

/// A block with operations and without rows.
pub open spec fn bare_block(ops: Seq<Operation>) -> Pending {
    Pending { ops, rows: no_rows() }
}

impl Pending {
    /// The block with more operations; their rows move behind those that are there.
    pub open spec fn extended(self, ops: Seq<Operation>, rows: RowsModel) -> Pending {
        let to = self.ops.len() as u32;
        Pending {
            ops: self.ops + ops,
            rows: RowsModel {
                asm_ops: self.rows.asm_ops + moved_asm_ops(rows.asm_ops, 0, to),
                debug_vars: self.rows.debug_vars + moved_debug_vars(rows.debug_vars, 0, to),
                inline_calls: self.rows.inline_calls + moved_inline_calls(
                    rows.inline_calls,
                    0,
                    to,
                ),
                call_frames: self.rows.call_frames + moved_call_frames(rows.call_frames, 0, to),
            },
        }
    }
}

/// A part of a body: a block, what an op is compiled to, or what an instruction is compiled to
/// behind the block before it. The instruction is compiled before that block ends.
pub ghost enum Part {
    Block(Pending),
    Node(int),
    Invoked(int, Pending),
}

/// A block ends, unless it is empty.
pub open spec fn flushed(parts: Seq<Part>, pending: Pending) -> Seq<Part> {
    if pending.ops.len() == 0 {
        parts
    } else {
        parts.push(Part::Block(pending))
    }
}

/// The parts of the first `k` ops of a body, and the block that is being filled behind them.
pub open spec fn cut(body: Seq<Op>, start: Pending, k: nat) -> (Seq<Part>, Pending)
    decreases k,
{
    if k == 0 {
        (Seq::empty(), start)
    } else {
        let (parts, pending) = cut(body, start, (k - 1) as nat);
        match body[k - 1] {
            Op::Inst(Instruction::Basic(piece)) => (
                parts,
                pending.extended(piece.ops@, piece.rows@),
            ),
            Op::Inst(Instruction::Inline(_)) => (parts, pending),
            Op::Inst(_) => (parts.push(Part::Invoked(k - 1, pending)), bare_block(Seq::empty())),
            _ => (flushed(parts, pending).push(Part::Node(k - 1)), bare_block(Seq::empty())),
        }
    }
}

/// The parts of a body between a prologue and an epilogue.
pub open spec fn parts_of(
    body: Seq<Op>,
    prologue: Seq<Operation>,
    epilogue: Seq<Operation>,
) -> Seq<Part> {
    let (parts, pending) = cut(body, bare_block(prologue), body.len());
    flushed(parts, pending.extended(epilogue, no_rows()))
}

/// The inlined calls under which op `k` stands.
pub open spec fn chain_at(
    body: Seq<Op>,
    active: Seq<DebugSourceInlineCall>,
    k: nat,
) -> Seq<DebugSourceInlineCall>
    decreases k,
{
    if k == 0 {
        active
    } else {
        match body[k - 1] {
            Op::Inst(Instruction::Inline(chain)) => chain@,
            _ => chain_at(body, active, (k - 1) as nat),
        }
    }
}

/// How often a part stands in its body.
pub open spec fn copies(body: Seq<Op>, part: Part) -> nat {
    match part {
        Part::Block(_) => 1,
        Part::Invoked(_, _) => 1,
        Part::Node(i) => match body[i] {
            Op::Repeat { span: _, count, body: _ } => count as nat,
            _ => 1,
        },
    }
}

// WHAT IS BUILT
// ================================================================================================

/// A block was recorded.
pub open spec fn block_built(
    b: BuilderModel,
    after: BuilderModel,
    block: Pending,
    u: MastNodeUse,
) -> bool {
    recorded(
        b,
        after,
        block_draft(batched(block.ops), block.rows, Seq::empty()),
        Seq::empty(),
        u,
    )
}

/// A block without effect was recorded.
pub open spec fn noop_built(
    b: BuilderModel,
    after: BuilderModel,
    chain: Seq<DebugSourceInlineCall>,
    u: MastNodeUse,
) -> bool {
    block_built(b, after, noop_block(chain), u)
}

/// A block without effect.
pub open spec fn noop_block(chain: Seq<DebugSourceInlineCall>) -> Pending {
    Pending { ops: seq![Operation::Noop], rows: RowsModel { inline_calls: chain, ..no_rows() } }
}

pub open spec fn split_draft(
    b: BuilderModel,
    on_true: MastNodeUse,
    on_false: MastNodeUse,
    asm_op: AssemblyOp,
    chain: Seq<DebugSourceInlineCall>,
) -> DraftModel {
    control_draft(
        PendingKind::Split,
        merge_in_domain_spec(
            digest_of_ref(b, on_true.node_ref),
            digest_of_ref(b, on_false.node_ref),
            SPLIT_DOMAIN,
        ),
        seq![on_true.node_ref, on_false.node_ref],
        asm_op,
        chain,
    )
}

pub open spec fn split_built(
    b: BuilderModel,
    after: BuilderModel,
    on_true: MastNodeUse,
    on_false: MastNodeUse,
    asm_op: AssemblyOp,
    chain: Seq<DebugSourceInlineCall>,
    u: MastNodeUse,
) -> bool {
    recorded(
        b,
        after,
        split_draft(b, on_true, on_false, asm_op, chain),
        seq![on_true.source_ref.0, on_false.source_ref.0],
        u,
    )
}

pub open spec fn loop_draft(
    b: BuilderModel,
    body: MastNodeUse,
    asm_op: AssemblyOp,
    chain: Seq<DebugSourceInlineCall>,
) -> DraftModel {
    control_draft(
        PendingKind::Loop,
        merge_in_domain_spec(
            digest_of_ref(b, body.node_ref),
            Word::zero_spec(),
            LOOP_DOMAIN,
        ),
        seq![body.node_ref],
        asm_op,
        chain,
    )
}

pub open spec fn loop_built(
    b: BuilderModel,
    after: BuilderModel,
    body: MastNodeUse,
    asm_op: AssemblyOp,
    chain: Seq<DebugSourceInlineCall>,
    u: MastNodeUse,
) -> bool {
    recorded(
        b,
        after,
        loop_draft(b, body, asm_op, chain),
        seq![body.source_ref.0],
        u,
    )
}

pub open spec fn call_draft(
    b: BuilderModel,
    callee: MastNodeUse,
    is_syscall: bool,
    asm_op: AssemblyOp,
    chain: Seq<DebugSourceInlineCall>,
) -> DraftModel {
    control_draft(
        PendingKind::Call(is_syscall),
        merge_in_domain_spec(
            digest_of_ref(b, callee.node_ref),
            Word::zero_spec(),
            if is_syscall {
                SYSCALL_DOMAIN
            } else {
                CALL_DOMAIN
            },
        ),
        seq![callee.node_ref],
        asm_op,
        chain,
    )
}

pub open spec fn call_built(
    b: BuilderModel,
    after: BuilderModel,
    callee: MastNodeUse,
    is_syscall: bool,
    asm_op: AssemblyOp,
    chain: Seq<DebugSourceInlineCall>,
    u: MastNodeUse,
) -> bool {
    recorded(
        b,
        after,
        call_draft(b, callee, is_syscall, asm_op, chain),
        seq![callee.source_ref.0],
        u,
    )
}

pub open spec fn dyn_draft(
    is_dyncall: bool,
    asm_op: AssemblyOp,
    chain: Seq<DebugSourceInlineCall>,
) -> DraftModel {
    control_draft(
        PendingKind::Dyn(is_dyncall),
        merge_in_domain_spec(
            Word::zero_spec(),
            Word::zero_spec(),
            if is_dyncall {
                DYNCALL_DOMAIN
            } else {
                DYN_DOMAIN
            },
        ),
        Seq::empty(),
        asm_op,
        chain,
    )
}

pub open spec fn dyn_built(
    b: BuilderModel,
    after: BuilderModel,
    is_dyncall: bool,
    asm_op: AssemblyOp,
    chain: Seq<DebugSourceInlineCall>,
    u: MastNodeUse,
) -> bool {
    recorded(
        b,
        after,
        dyn_draft(is_dyncall, asm_op, chain),
        Seq::empty(),
        u,
    )
}

/// A procedure is executed in place: its own occurrence without inlined calls, else a copy under
/// them, which identical uses share.
pub open spec fn exec_built(
    b: BuilderModel,
    after: BuilderModel,
    target: MastNodeUse,
    chain: Seq<DebugSourceInlineCall>,
    u: MastNodeUse,
) -> bool {
    let key = crate::builder::chain_key(chain);
    let found = find_decorated(b.decorated, target.source_ref.0, key, b.decorated.len());
    &&& u.node_ref == target.node_ref
    &&& if chain.len() == 0 {
        u == target && after == b
    } else if found is Some {
        u.source_ref == SourceNodeRef(found->0) && after == b
    } else {
        let g = after.graph;
        &&& u.source_ref.0 == g.nodes.len() - 1
        &&& appended(b.graph, g)
        &&& after == (BuilderModel {
            graph: g,
            decorated: b.decorated.push(
                DecoratedModel {
                    source: target.source_ref.0,
                    chain: key,
                    copy: u.source_ref.0,
                },
            ),
            ..b
        })
        &&& exists|copies: Seq<Option<u32>>|
            #[trigger] copies_of(g, b.graph.nodes.len(), chain, copies) && g.nodes.last()
                == decorated(
                b.graph.nodes[target.source_ref.0 as int],
                b.graph.boundary[target.source_ref.0 as int],
                chain,
                copies,
            )
    }
}

/// A target was resolved: to the body that was compiled, or by linking it.
pub open spec fn target_built(
    a: Assembler,
    procs: Seq<ProcedureEntry>,
    b: BuilderModel,
    after: BuilderModel,
    target: Target,
    u: MastNodeUse,
) -> bool {
    match target_plan(procs, target) {
        TargetPlan::Body(body) => u == body && after == b,
        TargetPlan::Missing(_) => false,
        TargetPlan::Link(compiled) => link_built(a, b, after, compiled, u),
    }
}

/// A procedure was linked; its latest occurrence is used.
pub open spec fn link_built(
    a: Assembler,
    b: BuilderModel,
    after: BuilderModel,
    compiled: CompiledProcedure,
    u: MastNodeUse,
) -> bool {
    &&& a.libraries.link_plan(compiled.hint, compiled.mast_root) matches Ok(plan) && linked_as(
        b,
        after,
        a.libraries,
        plan,
        compiled.mast_root,
        u.node_ref,
    )
    &&& u.source_ref.0 == after.graph.history[u.node_ref.0 as int].last()
}

/// The states and uses on the way to a node.
pub ghost struct Steps {
    pub s1: BuilderModel,
    pub s2: BuilderModel,
    pub s3: BuilderModel,
    pub u1: MastNodeUse,
    pub u2: MastNodeUse,
    pub u3: MastNodeUse,
    pub uses: Seq<MastNodeUse>,
}

/// An op was compiled to a node.
///
/// A loop with its condition at the head runs like one with its condition at the tail, below a
/// split that tests the condition first.
pub open spec fn node_built(
    a: Assembler,
    procs: Seq<ProcedureEntry>,
    b: BuilderModel,
    after: BuilderModel,
    op: Op,
    chain: Seq<DebugSourceInlineCall>,
    begin: AssemblyOp,
    u: MastNodeUse,
) -> bool
    decreases op, 0nat,
{
    match op {
        Op::Inst(Instruction::Exec { span: _, target }) => exists|w: Steps| #[trigger]
            exec_built(w.s1, after, w.u1, chain, u) && target_built(a, procs, b, w.s1, target, w.u1),
        Op::Inst(Instruction::Call { span: _, target, is_syscall, asm_op }) => exists|w: Steps|
            #[trigger]
            call_built(w.s1, after, w.u1, is_syscall, asm_op, chain, u) && target_built(
                a,
                procs,
                b,
                w.s1,
                target,
                w.u1,
            ),
        Op::Inst(Instruction::Dyn { is_dyncall, asm_op }) => dyn_built(
            b,
            after,
            is_dyncall,
            asm_op,
            chain,
            u,
        ),
        Op::Inst(_) => false,
        Op::If { span: _, asm_op, then_blk, else_blk } => exists|w: Steps| #[trigger]
            split_built(w.s2, after, w.u1, w.u2, asm_op, chain, u) && body_built(
                a,
                procs,
                b,
                w.s1,
                then_blk@,
                Seq::empty(),
                Seq::empty(),
                chain,
                begin,
                w.u1,
            ) && body_built(
                a,
                procs,
                w.s1,
                w.s2,
                else_blk@,
                Seq::empty(),
                Seq::empty(),
                chain,
                begin,
                w.u2,
            ),
        Op::Repeat { span: _, count: _, body } => body_built(
            a,
            procs,
            b,
            after,
            body@,
            Seq::empty(),
            Seq::empty(),
            chain,
            begin,
            u,
        ),
        Op::While { span: _, asm_op, body } => exists|w: Steps| #[trigger]
            split_built(w.s3, after, w.u2, w.u3, asm_op, chain, u) && body_built(
                a,
                procs,
                b,
                w.s1,
                body@,
                Seq::empty(),
                Seq::empty(),
                chain,
                begin,
                w.u1,
            ) && loop_built(w.s1, w.s2, w.u1, asm_op, chain, w.u2) && noop_built(
                w.s2,
                w.s3,
                chain,
                w.u3,
            ),
        Op::DoWhile { span: _, asm_op, body } => exists|w: Steps| #[trigger]
            loop_built(w.s1, after, w.u1, asm_op, chain, u) && body_built(
                a,
                procs,
                b,
                w.s1,
                body@,
                Seq::empty(),
                Seq::empty(),
                chain,
                begin,
                w.u1,
            ),
    }
}

/// The uses of a part behind others: copies of a node, or a block, unless it is empty, and what an
/// instruction is compiled to.
pub open spec fn with_part(body: Seq<Op>, w: Steps, part: Part) -> Seq<MastNodeUse> {
    match part {
        Part::Invoked(_, block) => if block.ops.len() == 0 {
            w.uses.push(w.u1)
        } else {
            w.uses.push(w.u2).push(w.u1)
        },
        _ => with_copies(w.uses, w.u1, copies(body, part)),
    }
}

/// A part of a body was compiled.
pub open spec fn part_built(
    a: Assembler,
    procs: Seq<ProcedureEntry>,
    b: BuilderModel,
    after: BuilderModel,
    body: Seq<Op>,
    active: Seq<DebugSourceInlineCall>,
    begin: AssemblyOp,
    part: Part,
    w: Steps,
) -> bool
    decreases body, 0nat,
{
    match part {
        Part::Block(block) => block_built(b, after, block, w.u1),
        Part::Node(i) => 0 <= i < body.len() && node_built(
            a,
            procs,
            b,
            after,
            body[i],
            chain_at(body, active, i as nat),
            begin,
            w.u1,
        ),
        Part::Invoked(i, block) => {
            &&& 0 <= i < body.len()
            &&& node_built(
                a,
                procs,
                b,
                w.s2,
                body[i],
                chain_at(body, active, i as nat),
                begin,
                w.u1,
            )
            &&& if block.ops.len() == 0 {
                after == w.s2
            } else {
                block_built(w.s2, after, block, w.u2)
            }
        },
    }
}

/// Parts of a body were compiled one after another, to uses that are repeated as they are.
pub open spec fn parts_built(
    a: Assembler,
    procs: Seq<ProcedureEntry>,
    b: BuilderModel,
    after: BuilderModel,
    body: Seq<Op>,
    active: Seq<DebugSourceInlineCall>,
    begin: AssemblyOp,
    parts: Seq<Part>,
    uses: Seq<MastNodeUse>,
) -> bool
    decreases body, parts.len() + 1,
{
    if parts.len() == 0 {
        uses.len() == 0 && after == b
    } else {
        exists|w: Steps| #[trigger]
            with_part(body, w, parts.last()) == uses && parts_built(
                a,
                procs,
                b,
                w.s1,
                body,
                active,
                begin,
                parts.drop_last(),
                w.uses,
            ) && part_built(a, procs, w.s1, after, body, active, begin, parts.last(), w)
    }
}

/// Uses followed by `n` times the same.
pub open spec fn with_copies(uses: Seq<MastNodeUse>, u: MastNodeUse, n: nat) -> Seq<MastNodeUse> {
    Seq::new(
        uses.len() + n,
        |i: int|
            if i < uses.len() {
                uses[i]
            } else {
                u
            },
    )
}

/// The uses of a body were joined; a body without any is a block without effect.
pub open spec fn body_closed(
    b: BuilderModel,
    after: BuilderModel,
    uses: Seq<MastNodeUse>,
    chain: Seq<DebugSourceInlineCall>,
    begin: AssemblyOp,
    u: MastNodeUse,
) -> bool {
    if uses.len() == 0 {
        noop_built(b, after, chain, u)
    } else {
        exists|mid: BuilderModel, merged: Seq<MastNodeUse>| #[trigger]
            merged_stretches(b, mid, uses, merged) && joined(
                mid,
                after,
                merged,
                Some(begin),
                u,
            )
    }
}

/// A body was compiled to a node.
pub open spec fn body_built(
    a: Assembler,
    procs: Seq<ProcedureEntry>,
    b: BuilderModel,
    after: BuilderModel,
    body: Seq<Op>,
    prologue: Seq<Operation>,
    epilogue: Seq<Operation>,
    active: Seq<DebugSourceInlineCall>,
    begin: AssemblyOp,
    u: MastNodeUse,
) -> bool
    decreases body, parts_of(body, prologue, epilogue).len() + 2,
{
    exists|w: Steps| #[trigger]
        body_closed(
            w.s1,
            after,
            w.uses,
            chain_at(body, active, body.len()),
            begin,
            u,
        ) && parts_built(
            a,
            procs,
            b,
            w.s1,
            body,
            active,
            begin,
            parts_of(body, prologue, epilogue),
            w.uses,
        )
}

// WHAT CANNOT BE BUILT
// ================================================================================================

/// The indices of rows stay in range when they move behind `to` operations.
pub open spec fn rows_fit(rows: RowsModel, to: nat) -> bool {
    &&& forall|i: int|
        0 <= i < rows.asm_ops.len() ==> (#[trigger] rows.asm_ops[i]).op_idx + to <= u32::MAX
    &&& forall|i: int|
        0 <= i < rows.debug_vars.len() ==> (#[trigger] rows.debug_vars[i]).op_idx + to <= u32::MAX
    &&& forall|i: int|
        0 <= i < rows.inline_calls.len() ==> (#[trigger] rows.inline_calls[i]).op_idx + to
            <= u32::MAX
    &&& forall|i: int|
        0 <= i < rows.call_frames.len() ==> (#[trigger] rows.call_frames[i]).op_start + to
            <= u32::MAX && rows.call_frames[i].op_end + to <= u32::MAX
}

/// Operations with rows cannot be appended to a block.
pub open spec fn append_failed(pending: Pending, rows: RowsModel, e: BuildError) -> bool {
    ||| e == BuildError::TooManyOperations && pending.ops.len() > u32::MAX
    ||| e == BuildError::RowsOutOfRange && !rows_fit(rows, pending.ops.len())
}

/// A block cannot be ended.
pub open spec fn flush_failed(
    b: BuilderModel,
    after: BuilderModel,
    pending: Pending,
    e: BuildError,
) -> bool {
    &&& pending.ops.len() > 0
    &&& if pending.ops.len() > u32::MAX {
        e == BuildError::TooManyOperations && after == b
    } else {
        record_failed(
            b,
            after,
            block_draft(batched(pending.ops), pending.rows, Seq::empty()),
            e,
        )
    }
}

/// The draft of a block.
pub open spec fn pending_draft(block: Pending) -> DraftModel {
    block_draft(batched(block.ops), block.rows, Seq::empty())
}

/// The node of a draft cannot be added.
pub open spec fn add_failed(
    b: BuilderModel,
    after: BuilderModel,
    draft: DraftModel,
    e: BuildError,
) -> bool {
    spent(after, e) && record_failed(b, after, draft, e)
}

/// The node of an op cannot be added, when everything inside of it was compiled.
pub open spec fn control_failed(
    a: Assembler,
    procs: Seq<ProcedureEntry>,
    b: BuilderModel,
    w: Steps,
    after: BuilderModel,
    op: Op,
    chain: Seq<DebugSourceInlineCall>,
    begin: AssemblyOp,
    e: BuildError,
) -> bool {
    match op {
        Op::Inst(Instruction::Exec { span: _, target }) => {
            &&& target_built(a, procs, b, w.s1, target, w.u1)
            &&& chain.len() > 0
            &&& clone_failed(w.s1.graph, after.graph, w.u1.source_ref.0, chain.len(), e)
        },
        Op::Inst(Instruction::Call { span: _, target, is_syscall, asm_op }) => {
            &&& target_built(a, procs, b, w.s1, target, w.u1)
            &&& add_failed(w.s1, after, call_draft(w.s1, w.u1, is_syscall, asm_op, chain), e)
        },
        Op::Inst(Instruction::Dyn { is_dyncall, asm_op }) => add_failed(
            b,
            after,
            dyn_draft(is_dyncall, asm_op, chain),
            e,
        ),
        Op::Inst(_) => false,
        Op::If { span: _, asm_op, then_blk, else_blk } => {
            &&& nested_built(a, procs, b, w.s1, then_blk@, chain, begin, w.u1)
            &&& nested_built(a, procs, w.s1, w.s2, else_blk@, chain, begin, w.u2)
            &&& add_failed(w.s2, after, split_draft(w.s2, w.u1, w.u2, asm_op, chain), e)
        },
        Op::Repeat { span: _, count: _, body: _ } => false,
        Op::While { span: _, asm_op, body } => {
            &&& nested_built(a, procs, b, w.s1, body@, chain, begin, w.u1)
            &&& {
                ||| add_failed(w.s1, after, loop_draft(w.s1, w.u1, asm_op, chain), e)
                ||| loop_built(w.s1, w.s2, w.u1, asm_op, chain, w.u2) && add_failed(
                    w.s2,
                    after,
                    pending_draft(noop_block(chain)),
                    e,
                )
                ||| loop_built(w.s1, w.s2, w.u1, asm_op, chain, w.u2) && noop_built(
                    w.s2,
                    w.s3,
                    chain,
                    w.u3,
                ) && add_failed(w.s3, after, split_draft(w.s3, w.u2, w.u3, asm_op, chain), e)
            }
        },
        Op::DoWhile { span: _, asm_op, body } => {
            &&& nested_built(a, procs, b, w.s1, body@, chain, begin, w.u1)
            &&& add_failed(w.s1, after, loop_draft(w.s1, w.u1, asm_op, chain), e)
        },
    }
}

/// A body inside of another was compiled.
pub open spec fn nested_built(
    a: Assembler,
    procs: Seq<ProcedureEntry>,
    b: BuilderModel,
    after: BuilderModel,
    body: Seq<Op>,
    chain: Seq<DebugSourceInlineCall>,
    begin: AssemblyOp,
    u: MastNodeUse,
) -> bool {
    body_built(a, procs, b, after, body, Seq::empty(), Seq::empty(), chain, begin, u)
}

/// The uses of a body cannot be joined.
pub open spec fn close_failed(
    b: BuilderModel,
    after: BuilderModel,
    uses: Seq<MastNodeUse>,
    chain: Seq<DebugSourceInlineCall>,
    e: BuildError,
) -> bool {
    if uses.len() == 0 {
        add_failed(b, after, pending_draft(noop_block(chain)), e)
    } else {
        ||| e == BuildError::RowsOutOfRange && b.graph.functions.len() > u32::MAX
        ||| join_failed(b, after, uses, e)
    }
}

/// A target cannot be linked.
pub open spec fn target_failed(
    a: Assembler,
    procs: Seq<ProcedureEntry>,
    b: BuilderModel,
    after: BuilderModel,
    target: Target,
    e: StaticImportError,
) -> bool {
    target_plan(procs, target) matches TargetPlan::Link(compiled) && link_refused(
        a,
        compiled,
        b,
        after,
        e,
    )
}

/// Where compiling a body stopped: the parts that were compiled before, and the op at which it did;
/// behind the last op, the body was to be closed.
pub ghost struct Stop {
    pub k: nat,
    pub mid: BuilderModel,
    pub parts: Seq<Part>,
    pub uses: Seq<MastNodeUse>,
    /// What an instruction was compiled to before the block ahead of it could not be ended.
    pub now: BuilderModel,
    pub node: MastNodeUse,
}

/// Compiling a body stopped at a block or when the parts were joined.
pub open spec fn stopped(
    after: BuilderModel,
    body: Seq<Op>,
    prologue: Seq<Operation>,
    epilogue: Seq<Operation>,
    active: Seq<DebugSourceInlineCall>,
    stop: Stop,
    e: BuildError,
) -> bool {
    let (parts, pending) = cut(body, bare_block(prologue), stop.k);
    if stop.k < body.len() {
        stop.parts == parts && match body[stop.k as int] {
            Op::Inst(Instruction::Basic(piece)) => after == stop.mid && append_failed(
                pending,
                piece.rows@,
                e,
            ),
            Op::Inst(_) => false,
            _ => flush_failed(stop.mid, after, pending, e),
        }
    } else {
        let last = pending.extended(epilogue, no_rows());
        ||| stop.parts == parts && (after == stop.mid && append_failed(pending, no_rows(), e)
            || flush_failed(stop.mid, after, last, e))
        ||| stop.parts == flushed(parts, last) && close_failed(
            stop.mid,
            after,
            stop.uses,
            chain_at(body, active, body.len()),
            e,
        )
    }
}

/// The parts before op `k` when it is compiled to a node: the block ahead of it has ended, unless
/// the op is an instruction.
pub open spec fn parts_ahead(body: Seq<Op>, prologue: Seq<Operation>, k: nat) -> Seq<Part> {
    let (parts, pending) = cut(body, bare_block(prologue), k);
    if body[k as int] is Inst {
        parts
    } else {
        flushed(parts, pending)
    }
}

/// An op cannot be compiled to a node: something inside of it cannot, its target cannot be linked,
/// or the forest cannot be built further.
#[verifier::opaque]
pub open spec fn node_failed(
    a: Assembler,
    procs: Seq<ProcedureEntry>,
    b: BuilderModel,
    after: BuilderModel,
    op: Op,
    chain: Seq<DebugSourceInlineCall>,
    begin: AssemblyOp,
    e: CompileError,
) -> bool
    decreases op, 0nat,
{
    ||| e matches CompileError::Build(e) && exists|w: Steps| #[trigger]
        control_failed(a, procs, b, w, after, op, chain, begin, e)
    ||| match op {
        Op::Inst(Instruction::Exec { span: _, target }) => e matches CompileError::Link(e)
            && target_failed(a, procs, b, after, target, e),
        Op::Inst(Instruction::Call { span: _, target, is_syscall: _, asm_op: _ }) => e matches
            CompileError::Link(e) && target_failed(a, procs, b, after, target, e),
        Op::Inst(_) => false,
        Op::If { span: _, asm_op: _, then_blk, else_blk } => {
            ||| nested_failed(a, procs, b, after, then_blk@, chain, begin, e)
            ||| exists|w: Steps| #[trigger]
                extends(b, w.s1) && body_built(
                    a,
                    procs,
                    b,
                    w.s1,
                    then_blk@,
                    Seq::empty(),
                    Seq::empty(),
                    chain,
                    begin,
                    w.u1,
                ) && nested_failed(a, procs, w.s1, after, else_blk@, chain, begin, e)
        },
        Op::Repeat { span: _, count: _, body } => nested_failed(
            a,
            procs,
            b,
            after,
            body@,
            chain,
            begin,
            e,
        ),
        Op::While { span: _, asm_op: _, body } => nested_failed(
            a,
            procs,
            b,
            after,
            body@,
            chain,
            begin,
            e,
        ),
        Op::DoWhile { span: _, asm_op: _, body } => nested_failed(
            a,
            procs,
            b,
            after,
            body@,
            chain,
            begin,
            e,
        ),
    }
}

/// A body inside of another cannot be compiled.
pub open spec fn nested_failed(
    a: Assembler,
    procs: Seq<ProcedureEntry>,
    b: BuilderModel,
    after: BuilderModel,
    body: Seq<Op>,
    chain: Seq<DebugSourceInlineCall>,
    begin: AssemblyOp,
    e: CompileError,
) -> bool
    decreases body, 2nat,
{
    body_failed(a, procs, b, after, body, Seq::empty(), Seq::empty(), chain, begin, e)
}

/// A body cannot be compiled: what comes before some point of it was compiled, and there it stopped.
#[verifier::opaque]
pub open spec fn body_failed(
    a: Assembler,
    procs: Seq<ProcedureEntry>,
    b: BuilderModel,
    after: BuilderModel,
    body: Seq<Op>,
    prologue: Seq<Operation>,
    epilogue: Seq<Operation>,
    active: Seq<DebugSourceInlineCall>,
    begin: AssemblyOp,
    e: CompileError,
) -> bool
    decreases body, 1nat,
{
    exists|stop: Stop| #[trigger]
        extends(b, stop.mid) && stop.k <= body.len() && parts_built(
            a,
            procs,
            b,
            stop.mid,
            body,
            active,
            begin,
            stop.parts,
            stop.uses,
        ) && {
            ||| e matches CompileError::Build(e) && stopped(
                after,
                body,
                prologue,
                epilogue,
                active,
                stop,
                e,
            )
            ||| e matches CompileError::Build(e) && stop.k < body.len() && body[stop.k as int] is Inst
                && stop.parts == cut(body, bare_block(prologue), stop.k).0 && node_built(
                a,
                procs,
                stop.mid,
                stop.now,
                body[stop.k as int],
                chain_at(body, active, stop.k),
                begin,
                stop.node,
            ) && flush_failed(
                stop.now,
                after,
                cut(body, bare_block(prologue), stop.k).1,
                e,
            )
            ||| stop.k < body.len() && stop.parts == parts_ahead(
                body,
                prologue,
                stop.k,
            ) && node_failed(
                a,
                procs,
                stop.mid,
                after,
                body[stop.k as int],
                chain_at(body, active, stop.k),
                begin,
                e,
            )
        }
}

proof fn lemma_stopped(
    a: Assembler,
    procs: Seq<ProcedureEntry>,
    b: BuilderModel,
    after: BuilderModel,
    body: Seq<Op>,
    prologue: Seq<Operation>,
    epilogue: Seq<Operation>,
    active: Seq<DebugSourceInlineCall>,
    begin: AssemblyOp,
    stop: Stop,
    e: BuildError,
)
    requires
        extends(b, stop.mid),
        stop.k <= body.len(),
        parts_built(a, procs, b, stop.mid, body, active, begin, stop.parts, stop.uses),
        stopped(after, body, prologue, epilogue, active, stop, e),
    ensures
        body_failed(
            a,
            procs,
            b,
            after,
            body,
            prologue,
            epilogue,
            active,
            begin,
            CompileError::Build(e),
        ),
{
    reveal(node_failed);
    reveal(body_failed);
    assert(extends(b, stop.mid));
}

proof fn lemma_stopped_at_node(
    a: Assembler,
    procs: Seq<ProcedureEntry>,
    b: BuilderModel,
    after: BuilderModel,
    body: Seq<Op>,
    prologue: Seq<Operation>,
    epilogue: Seq<Operation>,
    active: Seq<DebugSourceInlineCall>,
    begin: AssemblyOp,
    stop: Stop,
    e: CompileError,
)
    requires
        extends(b, stop.mid),
        stop.k < body.len(),
        parts_built(a, procs, b, stop.mid, body, active, begin, stop.parts, stop.uses),
        stop.parts == parts_ahead(body, prologue, stop.k),
        node_failed(
            a,
            procs,
            stop.mid,
            after,
            body[stop.k as int],
            chain_at(body, active, stop.k),
            begin,
            e,
        ),
    ensures
        body_failed(a, procs, b, after, body, prologue, epilogue, active, begin, e),
{
    reveal(node_failed);
    reveal(body_failed);
    assert(extends(b, stop.mid));
}

proof fn lemma_stopped_behind_node(
    a: Assembler,
    procs: Seq<ProcedureEntry>,
    b: BuilderModel,
    after: BuilderModel,
    body: Seq<Op>,
    prologue: Seq<Operation>,
    epilogue: Seq<Operation>,
    active: Seq<DebugSourceInlineCall>,
    begin: AssemblyOp,
    stop: Stop,
    e: BuildError,
)
    requires
        extends(b, stop.mid),
        stop.k < body.len(),
        body[stop.k as int] is Inst,
        parts_built(a, procs, b, stop.mid, body, active, begin, stop.parts, stop.uses),
        stop.parts == cut(body, bare_block(prologue), stop.k).0,
        node_built(
            a,
            procs,
            stop.mid,
            stop.now,
            body[stop.k as int],
            chain_at(body, active, stop.k),
            begin,
            stop.node,
        ),
        flush_failed(stop.now, after, cut(body, bare_block(prologue), stop.k).1, e),
    ensures
        body_failed(
            a,
            procs,
            b,
            after,
            body,
            prologue,
            epilogue,
            active,
            begin,
            CompileError::Build(e),
        ),
{
    reveal(body_failed);
    assert(extends(b, stop.mid));
}

/// What an op runs first cannot be compiled.
proof fn lemma_nested_failed(
    a: Assembler,
    procs: Seq<ProcedureEntry>,
    b: BuilderModel,
    after: BuilderModel,
    op: Op,
    first: Seq<Op>,
    chain: Seq<DebugSourceInlineCall>,
    begin: AssemblyOp,
    e: CompileError,
)
    requires
        body_failed(a, procs, b, after, first, Seq::empty(), Seq::empty(), chain, begin, e),
        match op {
            Op::Inst(_) => false,
            Op::If { span: _, asm_op: _, then_blk, else_blk: _ } => then_blk@ == first,
            Op::Repeat { span: _, count: _, body } => body@ == first,
            Op::While { span: _, asm_op: _, body } => body@ == first,
            Op::DoWhile { span: _, asm_op: _, body } => body@ == first,
        },
    ensures
        node_failed(a, procs, b, after, op, chain, begin, e),
{
    reveal(node_failed);
    reveal(body_failed);
}

/// The second branch cannot be compiled.
proof fn lemma_else_failed(
    a: Assembler,
    procs: Seq<ProcedureEntry>,
    b: BuilderModel,
    mid: BuilderModel,
    after: BuilderModel,
    op: Op,
    u: MastNodeUse,
    chain: Seq<DebugSourceInlineCall>,
    begin: AssemblyOp,
    e: CompileError,
)
    requires
        op is If,
        extends(b, mid),
        body_built(
            a,
            procs,
            b,
            mid,
            op->then_blk@,
            Seq::empty(),
            Seq::empty(),
            chain,
            begin,
            u,
        ),
        body_failed(
            a,
            procs,
            mid,
            after,
            op->else_blk@,
            Seq::empty(),
            Seq::empty(),
            chain,
            begin,
            e,
        ),
    ensures
        node_failed(a, procs, b, after, op, chain, begin, e),
{
    reveal(node_failed);
    reveal(body_failed);
    let w = Steps { s1: mid, s2: mid, s3: mid, u1: u, u2: u, u3: u, uses: Seq::empty() };
    assert(extends(b, w.s1));
}

/// The node of an op cannot be added.
proof fn lemma_control_failed(
    a: Assembler,
    procs: Seq<ProcedureEntry>,
    b: BuilderModel,
    w: Steps,
    after: BuilderModel,
    op: Op,
    chain: Seq<DebugSourceInlineCall>,
    begin: AssemblyOp,
    e: BuildError,
)
    requires
        control_failed(a, procs, b, w, after, op, chain, begin, e),
    ensures
        node_failed(a, procs, b, after, op, chain, begin, CompileError::Build(e)),
{
    reveal(node_failed);
}

// COMPILING
// ================================================================================================

/// A block that is being filled.
pub struct OpenBlock {
    pub ops: Vec<Operation>,
    pub rows: BlockRows,
}

fn append_vec<T: Copy>(list: &mut Vec<T>, more: &Vec<T>)
    ensures
        final(list)@ == old(list)@ + more@,
{
    let ghost before = list@;
    let mut i: usize = 0;
    assert(list@ =~= before + more@.take(0));
    while i < more.len()
        invariant
            i <= more@.len(),
            list@ == before + more@.take(i as int),
        decreases more@.len() - i,
    {
        list.push(more[i]);
        assert(list@ =~= before + more@.take(i + 1));
        i += 1;
    }
    assert(more@.take(i as int) =~= more@);
}

impl OpenBlock {
    pub open spec fn view(&self) -> Pending {
        Pending { ops: self.ops@, rows: self.rows@ }
    }

    /// A block with operations and without rows.
    pub fn new(ops: Vec<Operation>) -> (block: OpenBlock)
        ensures
            block@ == bare_block(ops@),
    {
        OpenBlock { ops, rows: BlockRows::new() }
    }

    /// Appends operations and their rows.
    pub fn append(&mut self, ops: &Vec<Operation>, rows: &BlockRows) -> (res: Result<
        (),
        BuildError,
    >)
        ensures
            match res {
                Ok(_) => final(self)@ == old(self)@.extended(ops@, rows@),
                Err(e) => append_failed(old(self)@, rows@, e),
            },
            old(self)@.ops.len() > u32::MAX ==> res is Err,
    {
        if self.ops.len() > u32::MAX as usize {
            return Err(BuildError::TooManyOperations);
        }
        let to: u32 = self.ops.len() as u32;
        let asm_ops = match move_asm_ops(&rows.asm_ops, 0, to) {
            Some(moved) => moved,
            None => {
                return Err(BuildError::RowsOutOfRange);
            },
        };
        let debug_vars = match move_debug_vars(&rows.debug_vars, 0, to) {
            Some(moved) => moved,
            None => {
                return Err(BuildError::RowsOutOfRange);
            },
        };
        let inline_calls = match move_inline_calls(&rows.inline_calls, 0, to) {
            Some(moved) => moved,
            None => {
                proof {
                    let k = choose|k: int|
                        0 <= k < rows@.inline_calls.len() && !can_move(rows@.inline_calls[k].op_idx, 0, to);
                    assert(rows@.inline_calls[k] == rows.inline_calls@[k]);
                }
                return Err(BuildError::RowsOutOfRange);
            },
        };
        let call_frames = match move_call_frames(&rows.call_frames, 0, to) {
            Some(moved) => moved,
            None => {
                proof {
                    let k = choose|k: int|
                        0 <= k < rows@.call_frames.len() && !(can_move(rows@.call_frames[k].op_start, 0, to) && can_move(
                            rows@.call_frames[k].op_end,
                            0,
                            to,
                        ));
                    assert(rows@.call_frames[k] == rows.call_frames@[k]);
                }
                return Err(BuildError::RowsOutOfRange);
            },
        };
        append_vec(&mut self.ops, ops);
        append_vec(&mut self.rows.asm_ops, &asm_ops);
        append_vec(&mut self.rows.debug_vars, &debug_vars);
        append_vec(&mut self.rows.inline_calls, &inline_calls);
        append_vec(&mut self.rows.call_frames, &call_frames);
        Ok(())
    }

    /// Ends the block: it becomes a node, unless it is empty.
    fn make_basic_block(
        self,
        builder: &mut MastForestBuilder,
        Ghost(libraries): Ghost<StaticLibraries>,
    ) -> (res: Result<Option<MastNodeUse>, BuildError>)
        requires
            old(builder)@.wf(),
            ops_ok(self@.ops),
        ensures
            same_procedures(old(builder).registry, final(builder).registry),
            match res {
                Ok(None) => self@.ops.len() == 0 && final(builder)@ == old(builder)@,
                Ok(Some(u)) => {
                    &&& self@.ops.len() > 0
                    &&& final(builder)@.wf()
                    &&& extends(old(builder)@, final(builder)@)
                    &&& keeps_imports(libraries, old(builder)@, final(builder)@)
                    &&& final(builder)@.has_use(u)
                    &&& block_built(old(builder)@, final(builder)@, self@, u)
                },
                Err(e) => flush_failed(old(builder)@, final(builder)@, self@, e) && (spent(
                    final(builder)@,
                    e,
                ) || self@.ops.len() > u32::MAX),
            },
    {
        if self.ops.len() == 0 {
            return Ok(None);
        }
        let none: Vec<u32> = Vec::new();
        assert(none@ =~= Seq::empty());
        let ghost block = self@;
        let ghost b = builder@;
        let OpenBlock { ops, rows } = self;
        match builder.ensure_block_use_with_call_frames(&ops, rows, none) {
            Ok(u) => {
                proof {
                    law_imports_stay_known(b, builder@, libraries);
                }
                Ok(Some(u))
            },
            Err(e) => Err(e),
        }
    }
}

/// Adds a block without effect.
fn ensure_noop(
    builder: &mut MastForestBuilder,
    chain: &Vec<DebugSourceInlineCall>,
    Ghost(libraries): Ghost<StaticLibraries>,
) -> (res: Result<MastNodeUse, BuildError>)
    requires
        old(builder)@.wf(),
    ensures
        same_procedures(old(builder).registry, final(builder).registry),
        match res {
            Ok(u) => {
                &&& final(builder)@.wf()
                &&& extends(old(builder)@, final(builder)@)
                &&& keeps_imports(libraries, old(builder)@, final(builder)@)
                &&& final(builder)@.has_use(u)
                &&& noop_built(old(builder)@, final(builder)@, chain@, u)
            },
            Err(e) => add_failed(
                old(builder)@,
                final(builder)@,
                pending_draft(noop_block(chain@)),
                e,
            ),
        },
{
    let mut ops: Vec<Operation> = Vec::new();
    ops.push(Operation::Noop);
    assert(ops@ =~= seq![Operation::Noop]);
    let mut rows = BlockRows::new();
    rows.inline_calls = copy_vec(chain);
    let block = OpenBlock { ops, rows };
    assert(block@ == noop_block(chain@));
    match block.make_basic_block(builder, Ghost(libraries)) {
        Ok(Some(u)) => Ok(u),
        Ok(None) => {
            assert(false);
            Err(BuildError::EmptyBasicBlock)
        },
        Err(e) => Err(e),
    }
}

impl Assembler {
    /// Links a procedure. Kernel calls have to lead to the kernel, if there is one.
    fn ensure_valid_procedure_mast_root(
        &self,
        builder: &mut MastForestBuilder,
        compiled: CompiledProcedure,
        is_syscall: bool,
        span: SourceSpan,
    ) -> (res: Result<MastNodeUse, CompileError>)
        requires
            self.wf(),
            old(builder)@.wf(),
            compiled.mast_root.wf(),
        ensures
            same_procedures(old(builder).registry, final(builder).registry),
            ({
                let refused = is_syscall && self.kernel@.len() > 0 && !self.kernel@.contains(
                    compiled.mast_root,
                );
                match res {
                    Ok(u) => {
                        &&& !refused
                        &&& final(builder)@.wf()
                        &&& extends(old(builder)@, final(builder)@)
                        &&& keeps_imports(self.libraries, old(builder)@, final(builder)@)
                        &&& final(builder)@.has_use(u)
                        &&& link_built(*self, old(builder)@, final(builder)@, compiled, u)
                    },
                    Err(CompileError::InvalidSysCallTarget { span: at, callee }) => refused && at
                        == span && callee == compiled.mast_root
                        && final(builder)@ == old(builder)@,
                    Err(CompileError::Link(e)) => !refused && link_refused(
                        *self,
                        compiled,
                        old(builder)@,
                        final(builder)@,
                        e,
                    ),
                    Err(_) => false,
                }
            }),
    {
        if is_syscall && self.kernel.len() > 0 && !self.in_kernel(compiled.mast_root) {
            return Err(
                CompileError::InvalidSysCallTarget { span, callee: compiled.mast_root },
            );
        }
        match builder.ensure_external_link_with_source_ref(
            &self.libraries,
            compiled.hint,
            compiled.mast_root,
        ) {
            Ok(r) => {
                assert(builder@.graph.history[r.0 as int].len() > 0);
                match builder.graph.latest(r.0) {
                    Some(source) => {
                        proof {
                            let h = builder@.graph.history[r.0 as int];
                            assert(builder@.graph.history[r.0 as int][h.len() - 1]
                                < builder@.graph.nodes.len());
                        }
                        Ok(MastNodeUse { node_ref: r, source_ref: SourceNodeRef(source) })
                    },
                    None => {
                        assert(false);
                        Err(CompileError::Build(BuildError::EmptyBasicBlock))
                    },
                }
            },
            Err(e) => Err(CompileError::Link(e)),
        }
    }

    /// The procedures of the kernel; none if there is no kernel.
    pub fn kernel(&self) -> (kernel: &Vec<Word>)
        ensures
            *kernel == self.kernel,
    {
        &self.kernel
    }

    /// Tells whether a procedure is one of the kernel's.
    fn in_kernel(&self, mast_root: Word) -> (res: bool)
        ensures
            res == self.kernel@.contains(mast_root),
    {
        let mut i: usize = 0;
        while i < self.kernel.len()
            invariant
                i <= self.kernel@.len(),
                forall|k: int| 0 <= k < i ==> self.kernel@[k] != mast_root,
            decreases self.kernel@.len() - i,
        {
            if self.kernel[i] == mast_root {
                return true;
            }
            i += 1;
        }
        false
    }

    /// The use of a procedure that is invoked: the body that was compiled, else what is linked.
    pub fn resolve_target(
        &self,
        builder: &mut MastForestBuilder,
        target: Target,
        is_syscall: bool,
        span: SourceSpan,
    ) -> (res: Result<MastNodeUse, CompileError>)
        requires
            self.wf(),
            old(builder)@.wf(),
            bodies_known(old(builder)@, old(builder).registry.procedures@),
            target_ok(target),
        ensures
            same_procedures(old(builder).registry, final(builder).registry),
            ({
                let procs = old(builder).registry.procedures@;
                let fault = target_fault(self.kernel@, procs, target, is_syscall, span);
                match res {
                    Ok(u) => {
                        &&& fault is None
                        &&& final(builder)@.wf()
                        &&& extends(old(builder)@, final(builder)@)
                        &&& keeps_imports(self.libraries, old(builder)@, final(builder)@)
                        &&& final(builder)@.has_use(u)
                        &&& target_built(
                            *self,
                            procs,
                            old(builder)@,
                            final(builder)@,
                            target,
                            u,
                        )
                    },
                    Err(e) => error_explained(
                        e,
                        fault,
                        e matches CompileError::Link(e) && target_failed(
                            *self,
                            procs,
                            old(builder)@,
                            final(builder)@,
                            target,
                            e,
                        ),
                    ),
                }
            }),
            target_plan(old(builder).registry.procedures@, target) is Body ==> res is Ok,
    {
        proof {
            lemma_extends_refl(builder@);
        }
        let ghost procs = builder.registry.procedures@;
        match target {
            Target::Root(mast_root) => {
                let compiled = CompiledProcedure {
                    mast_root,
                    hint: LinkHint { commitment: None, root: None, source: None },
                };
                self.ensure_valid_procedure_mast_root(builder, compiled, is_syscall, span)
            },
            Target::Item { gid, compiled } => {
                let known = match builder.get_procedure(gid) {
                    Some(procedure) => Some(procedure.body_node_use()),
                    None => None,
                };
                match known {
                    Some(u) => {
                        proof {
                            crate::procedures::lemma_procedure_index(procs, gid, procs.len());
                            let i = procedure_index(procs, gid, procs.len())->0;
                            assert(builder@.has_use(procs[i as int].procedure.body()));
                        }
                        Ok(u)
                    },
                    None => match compiled {
                        Some(compiled) => self.ensure_valid_procedure_mast_root(
                            builder,
                            compiled,
                            is_syscall,
                            span,
                        ),
                        None => Err(CompileError::MissingProcedure { gid }),
                    },
                }
            },
        }
    }

    /// Compiles an op that is a node of its own.
    #[verifier::rlimit(40)]
    fn compile_node(
        &self,
        builder: &mut MastForestBuilder,
        op: &Op,
        chain: &Vec<DebugSourceInlineCall>,
        begin: AssemblyOp,
        depth: usize,
    ) -> (res: Result<MastNodeUse, CompileError>)
        requires
            self.wf(),
            old(builder)@.wf(),
            bodies_known(old(builder)@, old(builder).registry.procedures@),
            op_ok(*op),
            depth <= self.max_nesting,
            !(op is Inst && (op->Inst_0 is Basic || op->Inst_0 is Inline)),
        ensures
            same_procedures(old(builder).registry, final(builder).registry),
            ({
                let procs = old(builder).registry.procedures@;
                let fault = op_fault(*self, procs, *op, depth as nat);
                match res {
                    Ok(u) => {
                        &&& fault is None
                        &&& final(builder)@.wf()
                        &&& extends(old(builder)@, final(builder)@)
                        &&& keeps_imports(self.libraries, old(builder)@, final(builder)@)
                        &&& final(builder)@.has_use(u)
                        &&& node_built(
                            *self,
                            procs,
                            old(builder)@,
                            final(builder)@,
                            *op,
                            chain@,
                            begin,
                            u,
                        )
                    },
                    Err(e) => error_explained(
                        e,
                        fault,
                        node_failed(
                            *self,
                            procs,
                            old(builder)@,
                            final(builder)@,
                            *op,
                            chain@,
                            begin,
                            e,
                        ),
                    ),
                }
            }),
        decreases op, 0nat,
    {
        let ghost procs = builder.registry.procedures@;
        let ghost b = builder@;
        match op {
            Op::Inst(inst) => self.compile_invocation(builder, inst, chain, Ghost(begin)),
            Op::If { span, asm_op, then_blk, else_blk } => {
                if depth >= self.max_nesting {
                    return Err(
                        CompileError::ControlFlowNestingDepthExceeded {
                            span: *span,
                            max_depth: self.max_nesting,
                        },
                    );
                }
                let t = match self.compile_nested(builder, then_blk, chain, begin, depth + 1) {
                    Ok(u) => u,
                    Err(e) => {
                        proof {
                            if e is Build || e is Link {
                                lemma_nested_failed(
                                    *self,
                                    procs,
                                    b,
                                    builder@,
                                    *op,
                                    then_blk@,
                                    chain@,
                                    begin,
                                    e,
                                );
                            }
                        }
                        return Err(e);
                    },
                };
                let ghost s1 = builder@;
                proof {
                    lemma_bodies_stay(b, s1, procs);
                }
                let e = match self.compile_nested(builder, else_blk, chain, begin, depth + 1) {
                    Ok(u) => u,
                    Err(e) => {
                        proof {
                            if e is Build || e is Link {
                                lemma_else_failed(
                                    *self,
                                    procs,
                                    b,
                                    s1,
                                    builder@,
                                    *op,
                                    t,
                                    chain@,
                                    begin,
                                    e,
                                );
                            }
                        }
                        return Err(e);
                    },
                };
                let ghost s2 = builder@;
                proof {
                    lemma_extends_trans(b, s1, s2);
                }
                let other = e;
                let u = match builder.ensure_split_node_use(t, e, *asm_op, copy_vec(chain)) {
                    Ok(u) => u,
                    Err(e) => {
                        proof {
                            lemma_control_failed(
                                *self,
                                procs,
                                b,
                                Steps { s1, s2, s3: s2, u1: t, u2: other, u3: other, uses: Seq::empty() },
                                builder@,
                                *op,
                                chain@,
                                begin,
                                e,
                            );
                        }
                        return Err(CompileError::Build(e));
                    },
                };
                proof {
                    lemma_extends_trans(b, s2, builder@);
                    law_imports_stay_known(s2, builder@, self.libraries);
                    let w = Steps { s1, s2, s3: s2, u1: t, u2: e, u3: e, uses: Seq::empty() };
                    assert(split_built(w.s2, builder@, w.u1, w.u2, *asm_op, chain@, u));
                }
                Ok(u)
            },
            Op::Repeat { span, count, body } => {
                if depth >= self.max_nesting {
                    return Err(
                        CompileError::ControlFlowNestingDepthExceeded {
                            span: *span,
                            max_depth: self.max_nesting,
                        },
                    );
                }
                let u = match self.compile_nested(builder, body, chain, begin, depth + 1) {
                    Ok(u) => u,
                    Err(e) => {
                        proof {
                            if e is Build || e is Link {
                                lemma_nested_failed(
                                    *self,
                                    procs,
                                    b,
                                    builder@,
                                    *op,
                                    body@,
                                    chain@,
                                    begin,
                                    e,
                                );
                            }
                        }
                        return Err(e);
                    },
                };
                if *count == 0 || *count > self.max_repeat_count {
                    return Err(CompileError::InvalidRepeatCount { span: *span, count: *count });
                }
                Ok(u)
            },
            Op::While { span, asm_op, body } => {
                if depth >= self.max_nesting {
                    return Err(
                        CompileError::ControlFlowNestingDepthExceeded {
                            span: *span,
                            max_depth: self.max_nesting,
                        },
                    );
                }
                let body_use = match self.compile_nested(builder, body, chain, begin, depth + 1) {
                    Ok(u) => u,
                    Err(e) => {
                        proof {
                            if e is Build || e is Link {
                                lemma_nested_failed(
                                    *self,
                                    procs,
                                    b,
                                    builder@,
                                    *op,
                                    body@,
                                    chain@,
                                    begin,
                                    e,
                                );
                            }
                        }
                        return Err(e);
                    },
                };
                let ghost s1 = builder@;
                let loop_use = match builder.ensure_loop_node_use(
                    body_use,
                    *asm_op,
                    copy_vec(chain),
                ) {
                    Ok(u) => u,
                    Err(e) => {
                        proof {
                            lemma_control_failed(
                                *self,
                                procs,
                                b,
                                Steps {
                                    s1,
                                    s2: s1,
                                    s3: s1,
                                    u1: body_use,
                                    u2: body_use,
                                    u3: body_use,
                                    uses: Seq::empty(),
                                },
                                builder@,
                                *op,
                                chain@,
                                begin,
                                e,
                            );
                        }
                        return Err(CompileError::Build(e));
                    },
                };
                let ghost s2 = builder@;
                let noop_use = match ensure_noop(builder, chain, Ghost(self.libraries)) {
                    Ok(u) => u,
                    Err(e) => {
                        proof {
                            lemma_control_failed(
                                *self,
                                procs,
                                b,
                                Steps {
                                    s1,
                                    s2,
                                    s3: s2,
                                    u1: body_use,
                                    u2: loop_use,
                                    u3: loop_use,
                                    uses: Seq::empty(),
                                },
                                builder@,
                                *op,
                                chain@,
                                begin,
                                e,
                            );
                        }
                        return Err(CompileError::Build(e));
                    },
                };
                let ghost s3 = builder@;
                let u = match builder.ensure_split_node_use(
                    loop_use,
                    noop_use,
                    *asm_op,
                    copy_vec(chain),
                ) {
                    Ok(u) => u,
                    Err(e) => {
                        proof {
                            lemma_control_failed(
                                *self,
                                procs,
                                b,
                                Steps {
                                    s1,
                                    s2,
                                    s3,
                                    u1: body_use,
                                    u2: loop_use,
                                    u3: noop_use,
                                    uses: Seq::empty(),
                                },
                                builder@,
                                *op,
                                chain@,
                                begin,
                                e,
                            );
                        }
                        return Err(CompileError::Build(e));
                    },
                };
                proof {
                    lemma_extends_trans(b, s1, s2);
                    lemma_extends_trans(b, s2, s3);
                    lemma_extends_trans(b, s3, builder@);
                    law_imports_stay_known(s1, s2, self.libraries);
                    law_imports_stay_known(s3, builder@, self.libraries);
                    let w = Steps {
                        s1,
                        s2,
                        s3,
                        u1: body_use,
                        u2: loop_use,
                        u3: noop_use,
                        uses: Seq::empty(),
                    };
                    assert(split_built(w.s3, builder@, w.u2, w.u3, *asm_op, chain@, u));
                }
                Ok(u)
            },
            Op::DoWhile { span, asm_op, body } => {
                if depth >= self.max_nesting {
                    return Err(
                        CompileError::ControlFlowNestingDepthExceeded {
                            span: *span,
                            max_depth: self.max_nesting,
                        },
                    );
                }
                let body_use = match self.compile_nested(builder, body, chain, begin, depth + 1) {
                    Ok(u) => u,
                    Err(e) => {
                        proof {
                            if e is Build || e is Link {
                                lemma_nested_failed(
                                    *self,
                                    procs,
                                    b,
                                    builder@,
                                    *op,
                                    body@,
                                    chain@,
                                    begin,
                                    e,
                                );
                            }
                        }
                        return Err(e);
                    },
                };
                let ghost s1 = builder@;
                let u = match builder.ensure_loop_node_use(body_use, *asm_op, copy_vec(chain)) {
                    Ok(u) => u,
                    Err(e) => {
                        proof {
                            lemma_control_failed(
                                *self,
                                procs,
                                b,
                                Steps {
                                    s1,
                                    s2: s1,
                                    s3: s1,
                                    u1: body_use,
                                    u2: body_use,
                                    u3: body_use,
                                    uses: Seq::empty(),
                                },
                                builder@,
                                *op,
                                chain@,
                                begin,
                                e,
                            );
                        }
                        return Err(CompileError::Build(e));
                    },
                };
                proof {
                    lemma_extends_trans(b, s1, builder@);
                    law_imports_stay_known(s1, builder@, self.libraries);
                    let w = Steps {
                        s1,
                        s2: s1,
                        s3: s1,
                        u1: body_use,
                        u2: body_use,
                        u3: body_use,
                        uses: Seq::empty(),
                    };
                    assert(loop_built(w.s1, builder@, w.u1, *asm_op, chain@, u));
                }
                Ok(u)
            },
        }
    }

    /// Compiles an instruction that is a node of its own.
    fn compile_invocation(
        &self,
        builder: &mut MastForestBuilder,
        inst: &Instruction,
        chain: &Vec<DebugSourceInlineCall>,
        Ghost(begin): Ghost<AssemblyOp>,
    ) -> (res: Result<MastNodeUse, CompileError>)
        requires
            self.wf(),
            old(builder)@.wf(),
            bodies_known(old(builder)@, old(builder).registry.procedures@),
            op_ok(Op::Inst(*inst)),
            !(*inst is Basic || *inst is Inline),
        ensures
            same_procedures(old(builder).registry, final(builder).registry),
            ({
                let procs = old(builder).registry.procedures@;
                let op = Op::Inst(*inst);
                match res {
                    Ok(u) => {
                        &&& op_fault(*self, procs, op, 0) is None
                        &&& final(builder)@.wf()
                        &&& extends(old(builder)@, final(builder)@)
                        &&& keeps_imports(self.libraries, old(builder)@, final(builder)@)
                        &&& final(builder)@.has_use(u)
                        &&& node_built(
                            *self,
                            procs,
                            old(builder)@,
                            final(builder)@,
                            op,
                            chain@,
                            begin,
                            u,
                        )
                    },
                    Err(e) => error_explained(
                        e,
                        op_fault(*self, procs, op, 0),
                        node_failed(
                            *self,
                            procs,
                            old(builder)@,
                            final(builder)@,
                            op,
                            chain@,
                            begin,
                            e,
                        ),
                    ),
                }
            }),
    {
        let ghost b = builder@;
        let ghost procs = builder.registry.procedures@;
        proof {
            reveal(node_failed);
        }
        match inst {
            Instruction::Exec { span, target } => {
                let t = match self.resolve_target(builder, *target, false, *span) {
                    Ok(t) => t,
                    Err(e) => {
                        return Err(e);
                    },
                };
                let ghost s1 = builder@;
                let u = match builder.record_exec_inline_calls(t, chain) {
                    Ok(u) => u,
                    Err(e) => {
                        proof {
                            let w = Steps {
                                s1,
                                s2: s1,
                                s3: s1,
                                u1: t,
                                u2: t,
                                u3: t,
                                uses: Seq::empty(),
                            };
                            lemma_control_failed(
                                *self,
                                procs,
                                b,
                                w,
                                builder@,
                                Op::Inst(*inst),
                                chain@,
                                begin,
                                e,
                            );
                        }
                        return Err(CompileError::Build(e));
                    },
                };
                proof {
                    lemma_extends_trans(b, s1, builder@);
                    law_imports_stay_known(s1, builder@, self.libraries);
                    let w = Steps {
                        s1,
                        s2: s1,
                        s3: s1,
                        u1: t,
                        u2: t,
                        u3: t,
                        uses: Seq::empty(),
                    };
                    assert(exec_built(w.s1, builder@, w.u1, chain@, u));
                }
                Ok(u)
            },
            Instruction::Call { span, target, is_syscall, asm_op } => {
                let t = match self.resolve_target(builder, *target, *is_syscall, *span) {
                    Ok(t) => t,
                    Err(e) => {
                        return Err(e);
                    },
                };
                let ghost s1 = builder@;
                let u = match builder.ensure_call_node_use(
                    t,
                    *is_syscall,
                    *asm_op,
                    copy_vec(chain),
                ) {
                    Ok(u) => u,
                    Err(e) => {
                        proof {
                            let w = Steps {
                                s1,
                                s2: s1,
                                s3: s1,
                                u1: t,
                                u2: t,
                                u3: t,
                                uses: Seq::empty(),
                            };
                            lemma_control_failed(
                                *self,
                                procs,
                                b,
                                w,
                                builder@,
                                Op::Inst(*inst),
                                chain@,
                                begin,
                                e,
                            );
                        }
                        return Err(CompileError::Build(e));
                    },
                };
                proof {
                    lemma_extends_trans(b, s1, builder@);
                    law_imports_stay_known(s1, builder@, self.libraries);
                    let w = Steps {
                        s1,
                        s2: s1,
                        s3: s1,
                        u1: t,
                        u2: t,
                        u3: t,
                        uses: Seq::empty(),
                    };
                    assert(call_built(w.s1, builder@, w.u1, *is_syscall, *asm_op, chain@, u));
                }
                Ok(u)
            },
            Instruction::Dyn { is_dyncall, asm_op } => {
                match builder.ensure_dyn_node_use(*is_dyncall, *asm_op, copy_vec(chain)) {
                    Ok(u) => {
                        proof {
                            law_imports_stay_known(b, builder@, self.libraries);
                        }
                        Ok(u)
                    },
                    Err(e) => {
                        proof {
                            lemma_control_failed(
                                *self,
                                procs,
                                b,
                                arbitrary(),
                                builder@,
                                Op::Inst(*inst),
                                chain@,
                                begin,
                                e,
                            );
                        }
                        Err(CompileError::Build(e))
                    },
                }
            },
            _ => {
                assert(false);
                Err(CompileError::Build(BuildError::EmptyBasicBlock))
            },
        }
    }

    /// Compiles a body inside of another.
    fn compile_nested(
        &self,
        builder: &mut MastForestBuilder,
        body: &Vec<Op>,
        chain: &Vec<DebugSourceInlineCall>,
        begin: AssemblyOp,
        depth: usize,
    ) -> (res: Result<MastNodeUse, CompileError>)
        requires
            self.wf(),
            old(builder)@.wf(),
            bodies_known(old(builder)@, old(builder).registry.procedures@),
            body_ok(body@),
            depth <= self.max_nesting,
        ensures
            same_procedures(old(builder).registry, final(builder).registry),
            ({
                let procs = old(builder).registry.procedures@;
                let fault = body_fault(*self, procs, body@, depth as nat, body@.len());
                match res {
                    Ok(u) => {
                        &&& fault is None
                        &&& final(builder)@.wf()
                        &&& extends(old(builder)@, final(builder)@)
                        &&& keeps_imports(self.libraries, old(builder)@, final(builder)@)
                        &&& final(builder)@.has_use(u)
                        &&& body_built(
                            *self,
                            procs,
                            old(builder)@,
                            final(builder)@,
                            body@,
                            Seq::empty(),
                            Seq::empty(),
                            chain@,
                            begin,
                            u,
                        )
                    },
                    Err(e) => error_explained(
                        e,
                        fault,
                        body_failed(
                            *self,
                            procs,
                            old(builder)@,
                            final(builder)@,
                            body@,
                            Seq::empty(),
                            Seq::empty(),
                            chain@,
                            begin,
                            e,
                        ),
                    ),
                }
            }),
        decreases body, 2nat,
    {
        let none: Vec<Operation> = Vec::new();
        let also_none: Vec<Operation> = Vec::new();
        assert(none@ =~= Seq::empty());
        assert(also_none@ =~= Seq::empty());
        self.compile_body(builder, body, none, also_none, chain, begin, depth)
    }

    /// Compiles a body between a prologue and an epilogue: instructions go to blocks, everything
    /// else is a node of its own, and adjacent blocks are merged when the nodes are joined.
    ///
    /// Refuses what is nested too deep, repetitions of an invalid count, and invocations that lead
    /// nowhere.
    #[verifier::rlimit(80)]
    pub fn compile_body(
        &self,
        builder: &mut MastForestBuilder,
        body: &Vec<Op>,
        prologue: Vec<Operation>,
        epilogue: Vec<Operation>,
        active: &Vec<DebugSourceInlineCall>,
        begin: AssemblyOp,
        depth: usize,
    ) -> (res: Result<MastNodeUse, CompileError>)
        requires
            self.wf(),
            old(builder)@.wf(),
            bodies_known(old(builder)@, old(builder).registry.procedures@),
            body_ok(body@),
            ops_ok(prologue@),
            ops_ok(epilogue@),
            depth <= self.max_nesting,
        ensures
            same_procedures(old(builder).registry, final(builder).registry),
            ({
                let procs = old(builder).registry.procedures@;
                let fault = body_fault(*self, procs, body@, depth as nat, body@.len());
                match res {
                    Ok(u) => {
                        &&& fault is None
                        &&& final(builder)@.wf()
                        &&& extends(old(builder)@, final(builder)@)
                        &&& keeps_imports(self.libraries, old(builder)@, final(builder)@)
                        &&& final(builder)@.has_use(u)
                        &&& body_built(
                            *self,
                            procs,
                            old(builder)@,
                            final(builder)@,
                            body@,
                            prologue@,
                            epilogue@,
                            active@,
                            begin,
                            u,
                        )
                    },
                    Err(e) => error_explained(
                        e,
                        fault,
                        body_failed(
                            *self,
                            procs,
                            old(builder)@,
                            final(builder)@,
                            body@,
                            prologue@,
                            epilogue@,
                            active@,
                            begin,
                            e,
                        ),
                    ),
                }
            }),
        decreases body, 1nat,
    {
        let ghost procs = builder.registry.procedures@;
        let ghost b = builder@;
        let ghost start = bare_block(prologue@);
        let mut chain = copy_vec(active);
        let mut uses: Vec<MastNodeUse> = Vec::new();
        let mut block = OpenBlock::new(prologue);
        let ghost mut parts: Seq<Part> = Seq::empty();
        proof {
            lemma_extends_refl(b);
            assert(uses@ =~= Seq::empty());
        }
        let mut i: usize = 0;
        while i < body.len()
            invariant
                i <= body@.len(),
                self.wf(),
                same_procedures(old(builder).registry, builder.registry),
                procs == old(builder).registry.procedures@,
                start == bare_block(prologue@),
                b == old(builder)@,
                b.wf(),
                builder@.wf(),
                extends(b, builder@),
                keeps_imports(self.libraries, b, builder@),
                bodies_known(builder@, procs),
                body_ok(body@),
                ops_ok(block@.ops),
                depth <= self.max_nesting,
                forall|k: int| 0 <= k < uses@.len() ==> builder@.has_use(#[trigger] uses@[k]),
                chain@ == chain_at(body@, active@, i as nat),
                cut(body@, start, i as nat) == (parts, block@),
                parts_built(
                    *self,
                    procs,
                    b,
                    builder@,
                    body@,
                    active@,
                    begin,
                    parts,
                    uses@,
                ),
                body_fault(*self, procs, body@, depth as nat, i as nat) is None,
            decreases body@.len() - i,
        {
            let op = &body[i];
            assert(op_ok(body@[i as int]));
            match op {
                Op::Inst(Instruction::Basic(piece)) => {
                    let ghost before = block@.ops;
                    match block.append(&piece.ops, &piece.rows) {
                        Ok(_) => {},
                        Err(e) => {
                            proof {
                                lemma_stopped(
                                    *self,
                                    procs,
                                    b,
                                    builder@,
                                    body@,
                                    prologue@,
                                    epilogue@,
                                    active@,
                                    begin,
                                    Stop { k: i as nat, mid: builder@, parts, uses: uses@, now: arbitrary(), node: arbitrary() },
                                    e,
                                );
                            }
                            return Err(CompileError::Build(e));
                        },
                    }
                    proof {
                        lemma_ops_ok(before, piece.ops@);
                    }
                },
                Op::Inst(Instruction::Inline(calls)) => {
                    chain = copy_vec(calls);
                },
                Op::Inst(_) => {
                    let ghost at0 = builder@;
                    let ghost uses0 = uses@;
                    let node = match self.compile_node(builder, op, &chain, begin, depth) {
                        Ok(node) => node,
                        Err(e) => {
                            proof {
                                let part = op_fault(*self, procs, *op, depth as nat);
                                if part is Some {
                                    lemma_body_fault(
                                        *self,
                                        procs,
                                        body@,
                                        depth as nat,
                                        (i + 1) as nat,
                                        body@.len(),
                                    );
                                }
                                if e is Build || e is Link {
                                    lemma_stopped_at_node(
                                        *self,
                                        procs,
                                        b,
                                        builder@,
                                        body@,
                                        prologue@,
                                        epilogue@,
                                        active@,
                                        begin,
                                        Stop {
                                            k: i as nat,
                                            mid: at0,
                                            parts,
                                            uses: uses@,
                                            now: at0,
                                            node: arbitrary(),
                                        },
                                        e,
                                    );
                                }
                            }
                            return Err(e);
                        },
                    };
                    let ghost at1 = builder@;
                    let full = block;
                    block = OpenBlock::new(Vec::new());
                    assert(block@ == bare_block(Seq::empty()));
                    let ghost filled = full@;
                    let flushed_use = match full.make_basic_block(builder, Ghost(self.libraries)) {
                        Ok(flushed_use) => flushed_use,
                        Err(e) => {
                            proof {
                                lemma_stopped_behind_node(
                                    *self,
                                    procs,
                                    b,
                                    builder@,
                                    body@,
                                    prologue@,
                                    epilogue@,
                                    active@,
                                    begin,
                                    Stop {
                                        k: i as nat,
                                        mid: at0,
                                        parts,
                                        uses: uses@,
                                        now: at1,
                                        node,
                                    },
                                    e,
                                );
                            }
                            return Err(CompileError::Build(e));
                        },
                    };
                    proof {
                        lemma_extends_trans(b, at0, at1);
                        if flushed_use is Some {
                            lemma_extends_trans(at0, at1, builder@);
                            lemma_extends_trans(b, at1, builder@);
                        }
                        lemma_bodies_stay(at0, builder@, procs);
                        lemma_uses_stay(at0, builder@, uses0);
                    }
                    if let Some(u) = flushed_use {
                        uses.push(u);
                    }
                    uses.push(node);
                    proof {
                        let u2 = match flushed_use {
                            Some(u) => u,
                            None => node,
                        };
                        let w = Steps {
                            s1: at0,
                            s2: at1,
                            s3: at1,
                            u1: node,
                            u2,
                            u3: node,
                            uses: uses0,
                        };
                        lemma_part_added(
                            *self,
                            procs,
                            b,
                            builder@,
                            body@,
                            active@,
                            begin,
                            parts,
                            Part::Invoked(i as int, filled),
                            w,
                            uses@,
                        );
                        parts = parts.push(Part::Invoked(i as int, filled));
                        assert(builder@.has_use(node));
                    }
                },
                _ => {
                    let full = block;
                    block = OpenBlock::new(Vec::new());
                    assert(block@ == bare_block(Seq::empty()));
                    let ghost filled = full@;
                    let ghost at0 = builder@;
                    let ghost uses0 = uses@;
                    let flushed_use = match full.make_basic_block(builder, Ghost(self.libraries)) {
                        Ok(flushed_use) => flushed_use,
                        Err(e) => {
                            proof {
                                lemma_stopped(
                                    *self,
                                    procs,
                                    b,
                                    builder@,
                                    body@,
                                    prologue@,
                                    epilogue@,
                                    active@,
                                    begin,
                                    Stop { k: i as nat, mid: at0, parts, uses: uses@, now: arbitrary(), node: arbitrary() },
                                    e,
                                );
                            }
                            return Err(CompileError::Build(e));
                        },
                    };
                    if let Some(u) = flushed_use {
                        uses.push(u);
                        proof {
                            lemma_extends_trans(b, at0, builder@);
                            lemma_bodies_stay(at0, builder@, procs);
                            lemma_uses_stay(at0, builder@, uses0);
                            lemma_part_added(
                                *self,
                                procs,
                                b,
                                builder@,
                                body@,
                                active@,
                                begin,
                                parts,
                                Part::Block(filled),
                                one_step(at0, u, uses0),
                                uses@,
                            );
                        }
                    }
                    proof {
                        parts = flushed(parts, filled);
                    }
                    let ghost at1 = builder@;
                    let ghost uses1 = uses@;
                    let node = match self.compile_node(builder, op, &chain, begin, depth) {
                        Ok(node) => node,
                        Err(e) => {
                            proof {
                                let part = op_fault(*self, procs, *op, depth as nat);
                                if part is Some {
                                    lemma_body_fault(
                                        *self,
                                        procs,
                                        body@,
                                        depth as nat,
                                        (i + 1) as nat,
                                        body@.len(),
                                    );
                                }
                                if e is Build || e is Link {
                                    lemma_stopped_at_node(
                                        *self,
                                        procs,
                                        b,
                                        builder@,
                                        body@,
                                        prologue@,
                                        epilogue@,
                                        active@,
                                        begin,
                                        Stop { k: i as nat, mid: at1, parts, uses: uses@, now: arbitrary(), node: arbitrary() },
                                        e,
                                    );
                                }
                            }
                            return Err(e);
                        },
                    };
                    let n: u32 = match op {
                        Op::Repeat { span: _, count, body: _ } => *count,
                        _ => 1,
                    };
                    push_copies(&mut uses, node, n);
                    proof {
                        lemma_extends_trans(b, at1, builder@);
                        lemma_bodies_stay(at1, builder@, procs);
                        lemma_uses_stay(at1, builder@, uses1);
                        lemma_part_added(
                            *self,
                            procs,
                            b,
                            builder@,
                            body@,
                            active@,
                            begin,
                            parts,
                            Part::Node(i as int),
                            one_step(at1, node, uses1),
                            uses@,
                        );
                        parts = parts.push(Part::Node(i as int));
                    }
                },
            }
            i += 1;
        }
        let ghost before = block@.ops;
        match block.append(&epilogue, &BlockRows::new()) {
            Ok(_) => {},
            Err(e) => {
                proof {
                    lemma_stopped(
                                    *self,
                                    procs,
                                    b,
                                    builder@,
                                    body@,
                                    prologue@,
                                    epilogue@,
                                    active@,
                                    begin,
                                    Stop { k: body@.len(), mid: builder@, parts, uses: uses@, now: arbitrary(), node: arbitrary() },
                                    e,
                                );
                }
                return Err(CompileError::Build(e));
            },
        }
        proof {
            lemma_ops_ok(before, epilogue@);
        }
        let ghost filled = block@;
        let ghost at0 = builder@;
        let ghost uses0 = uses@;
        let flushed_use = match block.make_basic_block(builder, Ghost(self.libraries)) {
            Ok(flushed_use) => flushed_use,
            Err(e) => {
                proof {
                    lemma_stopped(
                                    *self,
                                    procs,
                                    b,
                                    builder@,
                                    body@,
                                    prologue@,
                                    epilogue@,
                                    active@,
                                    begin,
                                    Stop { k: body@.len(), mid: at0, parts, uses: uses@, now: arbitrary(), node: arbitrary() },
                                    e,
                                );
                }
                return Err(CompileError::Build(e));
            },
        };
        if let Some(u) = flushed_use {
            uses.push(u);
            proof {
                lemma_extends_trans(b, at0, builder@);
                lemma_uses_stay(at0, builder@, uses0);
                lemma_part_added(
                    *self,
                    procs,
                    b,
                    builder@,
                    body@,
                    active@,
                    begin,
                    parts,
                    Part::Block(filled),
                    one_step(at0, u, uses0),
                    uses@,
                );
            }
        }
        proof {
            parts = flushed(parts, filled);
            assert(parts == parts_of(body@, prologue@, epilogue@));
        }
        let ghost at1 = builder@;
        let u = if uses.len() == 0 {
            match ensure_noop(builder, &chain, Ghost(self.libraries)) {
                Ok(u) => u,
                Err(e) => {
                    proof {
                        lemma_stopped(
                                    *self,
                                    procs,
                                    b,
                                    builder@,
                                    body@,
                                    prologue@,
                                    epilogue@,
                                    active@,
                                    begin,
                                    Stop { k: body@.len(), mid: at1, parts, uses: uses@, now: arbitrary(), node: arbitrary() },
                                    e,
                                );
                    }
                    return Err(CompileError::Build(e));
                },
            }
        } else {
            if builder.graph.functions.len() > u32::MAX as usize {
                proof {
                    lemma_stopped(
                                    *self,
                                    procs,
                                    b,
                                    builder@,
                                    body@,
                                    prologue@,
                                    epilogue@,
                                    active@,
                                    begin,
                                    Stop { k: body@.len(), mid: at1, parts, uses: uses@, now: arbitrary(), node: arbitrary() },
                                    BuildError::RowsOutOfRange,
                                );
                }
                return Err(CompileError::Build(BuildError::RowsOutOfRange));
            }
            match builder.join_node_uses(&uses, Some(begin)) {
                Ok(u) => {
                    proof {
                        law_imports_stay_known(at1, builder@, self.libraries);
                    }
                    u
                },
                Err(e) => {
                    proof {
                        lemma_stopped(
                                    *self,
                                    procs,
                                    b,
                                    builder@,
                                    body@,
                                    prologue@,
                                    epilogue@,
                                    active@,
                                    begin,
                                    Stop { k: body@.len(), mid: at1, parts, uses: uses@, now: arbitrary(), node: arbitrary() },
                                    e,
                                );
                    }
                    return Err(CompileError::Build(e));
                },
            }
        };
        proof {
            lemma_extends_trans(b, at1, builder@);
            let w = Steps { s1: at1, s2: at1, s3: at1, u1: u, u2: u, u3: u, uses: uses@ };
            assert(body_closed(
                w.s1,
                builder@,
                w.uses,
                chain_at(body@, active@, body@.len()),
                begin,
                u,
            ));
        }
        Ok(u)
    }
}

fn push_copies(uses: &mut Vec<MastNodeUse>, u: MastNodeUse, n: u32)
    ensures
        final(uses)@ == with_copies(old(uses)@, u, n as nat),
{
    let ghost before = uses@;
    let mut i: u32 = 0;
    assert(uses@ =~= with_copies(before, u, 0));
    while i < n
        invariant
            i <= n,
            uses@ == with_copies(before, u, i as nat),
        decreases n - i,
    {
        uses.push(u);
        assert(uses@ =~= with_copies(before, u, (i + 1) as nat));
        i += 1;
    }
}

proof fn lemma_ops_ok(a: Seq<Operation>, b: Seq<Operation>)
    requires
        ops_ok(a),
        ops_ok(b),
    ensures
        ops_ok(a + b),
{
    assert forall|i: int| 0 <= i < (a + b).len() implies (#[trigger] (a + b)[i]).wf() by {
        if i < a.len() {
            assert(a[i].wf());
        } else {
            assert(b[i - a.len()].wf());
        }
    }
}

proof fn lemma_uses_stay(b: BuilderModel, after: BuilderModel, uses: Seq<MastNodeUse>)
    requires
        extends(b, after),
        forall|k: int| 0 <= k < uses.len() ==> b.has_use(#[trigger] uses[k]),
    ensures
        forall|k: int| 0 <= k < uses.len() ==> after.has_use(#[trigger] uses[k]),
{
    assert forall|k: int| 0 <= k < uses.len() implies after.has_use(#[trigger] uses[k]) by {
        assert(b.has_use(uses[k]));
    }
}

/// One more part was compiled.
proof fn lemma_part_added(
    a: Assembler,
    procs: Seq<ProcedureEntry>,
    b: BuilderModel,
    after: BuilderModel,
    body: Seq<Op>,
    active: Seq<DebugSourceInlineCall>,
    begin: AssemblyOp,
    parts: Seq<Part>,
    part: Part,
    w: Steps,
    more: Seq<MastNodeUse>,
)
    requires
        parts_built(a, procs, b, w.s1, body, active, begin, parts, w.uses),
        part_built(a, procs, w.s1, after, body, active, begin, part, w),
        more =~= with_part(body, w, part),
    ensures
        parts_built(a, procs, b, after, body, active, begin, parts.push(part), more),
{
    let all = parts.push(part);
    assert(all.drop_last() =~= parts);
    assert(all.last() == part);
    assert(with_part(body, w, all.last()) == more);
}

/// The steps to a part that is one node.
spec fn one_step(mid: BuilderModel, u: MastNodeUse, uses: Seq<MastNodeUse>) -> Steps {
    Steps { s1: mid, s2: mid, s3: mid, u1: u, u2: u, u3: u, uses }
}

} // verus!
