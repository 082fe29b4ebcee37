//! Occurrences of code that was not there when they were recorded.
//!
//! A reference to a procedure that is not known yet is recorded as a boundary. Once the code of the
//! procedure is recorded, each of its boundaries becomes an occurrence of that code, under the
//! inlined calls and call frames that the boundary was under.

use vstd::prelude::*;

use crate::debug_info::{copy_vec, DebugSourceCallFrame, DebugSourceInlineCall, SourceModel};

use crate::source_graph::{
    appended, calls_at, chain_at, copies_of, decorated, graph_spent,
    law_every_operation_is_under_the_chain, range_ok, BuildError, GraphModel, SourceGraph,
};

verus! {

/// Frames stretched over a range.
pub open spec fn stretched(frames: Seq<DebugSourceCallFrame>, op_start: u32, op_end: u32) -> Seq<
    DebugSourceCallFrame,
> {
    Seq::new(frames.len(), |i: int| DebugSourceCallFrame { op_start, op_end, ..frames[i] })
}

/// Everything below `node` was copied under a chain, and the copies, all behind the first `n`
/// occurrences, still stand in `graph`.
pub open spec fn was_copied(
    at: GraphModel,
    graph: GraphModel,
    n: nat,
    chain: Seq<DebugSourceInlineCall>,
    copies: Seq<Option<u32>>,
    node: SourceModel,
) -> bool {
    &&& copies_of(at, copies.len(), chain, copies)
    &&& n <= copies.len()
    &&& at.nodes.len() <= graph.nodes.len()
    &&& forall|i: int|
        copies.len() <= i < at.nodes.len() ==> #[trigger] graph.nodes[i] == at.nodes[i]
    &&& forall|j: int|
        0 <= j < node.children.len() ==> (#[trigger] node.children[j]) < copies.len()
            && copies[node.children[j] as int] is Some
}

/// What a boundary becomes once its code is there: the concrete occurrence under the calls of the
/// boundary, with the frames of the boundary over the whole range around its own.
pub open spec fn resolves(
    graph: GraphModel,
    n: nat,
    boundary: SourceModel,
    concrete: SourceModel,
    concrete_is_boundary: bool,
    node: SourceModel,
) -> bool {
    let chain = boundary.inline_calls;
    let frames = stretched(boundary.call_frames, concrete.op_start, concrete.op_end);
    if chain.len() == 0 {
        node == SourceModel { call_frames: frames + concrete.call_frames, ..concrete }
    } else {
        exists|at: GraphModel, copies: Seq<Option<u32>>|
            #[trigger] was_copied(at, graph, n, chain, copies, concrete) && node == ({
                let copy = decorated(concrete, concrete_is_boundary, chain, copies);
                SourceModel { call_frames: frames + copy.call_frames, ..copy }
            })
    }
}

/// Occurrence `s` stands for execution node `exec` while its code is not there.
pub open spec fn is_boundary_of(graph: GraphModel, s: int, exec: u32) -> bool {
    graph.boundary[s] && graph.nodes[s].exec_node == exec
}

/// The boundaries of `exec` have been resolved to `concrete`; nothing else that was there changed.
pub open spec fn boundaries_resolved(
    before: GraphModel,
    after: GraphModel,
    exec: u32,
    concrete: int,
) -> bool {
    &&& before.nodes.len() <= after.nodes.len()
    &&& after.roots == before.roots
    &&& after.functions == before.functions
    &&& after.history == before.history
    &&& (forall|s: int| 0 <= s < before.nodes.len() ==> !#[trigger] is_boundary_of(before, s, exec))
        ==> after == before
    &&& forall|s: int|
        0 <= s < before.nodes.len() && !is_boundary_of(before, s, exec) ==> (
        #[trigger] after.nodes[s]) == before.nodes[s] && after.boundary[s] == before.boundary[s]
    &&& forall|s: int|
        0 <= s < before.nodes.len() && is_boundary_of(before, s, exec) ==> (
        #[trigger] after.nodes[s]).exec_node == exec && !after.boundary[s] && resolves(
            after,
            before.nodes.len(),
            before.nodes[s],
            before.nodes[concrete],
            before.boundary[concrete],
            after.nodes[s],
        )
}

/// The occurrences below `k` that stand for `exec` while its code is not there.
spec fn boundaries_of(graph: GraphModel, exec: u32, k: nat) -> Seq<u32>
    decreases k,
{
    if k == 0 {
        Seq::empty()
    } else if is_boundary_of(graph, k - 1, exec) {
        boundaries_of(graph, exec, (k - 1) as nat).push((k - 1) as u32)
    } else {
        boundaries_of(graph, exec, (k - 1) as nat)
    }
}

proof fn lemma_boundaries_of(graph: GraphModel, exec: u32, k: nat)
    requires
        k <= graph.nodes.len() <= u32::MAX,
    ensures
        ({
            let list = boundaries_of(graph, exec, k);
            &&& list.no_duplicates()
            &&& forall|i: int|
                0 <= i < list.len() ==> (#[trigger] list[i]) < k && is_boundary_of(
                    graph,
                    list[i] as int,
                    exec,
                )
            &&& forall|s: int|
                0 <= s < k && #[trigger] is_boundary_of(graph, s, exec) ==> list.contains(s as u32)
        }),
    decreases k,
{
    if k > 0 {
        lemma_boundaries_of(graph, exec, (k - 1) as nat);
        let before = boundaries_of(graph, exec, (k - 1) as nat);
        let list = boundaries_of(graph, exec, k);
        assert forall|i: int| 0 <= i < list.len() implies (#[trigger] list[i]) < k && is_boundary_of(
            graph,
            list[i] as int,
            exec,
        ) by {
            if i < before.len() {
                assert(list[i] == before[i]);
            }
        }
        assert forall|s: int| 0 <= s < k && #[trigger] is_boundary_of(graph, s, exec) implies list.contains(
            s as u32,
        ) by {
            if s < k - 1 {
                assert(before.contains(s as u32));
                let q = choose|q: int| 0 <= q < before.len() && before[q] == s as u32;
                assert(list[q] == s as u32);
            } else {
                assert(list[before.len() as int] == s as u32);
            }
        }
    }
}

fn stretch(frames: &Vec<DebugSourceCallFrame>, op_start: u32, op_end: u32) -> (res: Vec<
    DebugSourceCallFrame,
>)
    ensures
        res@ == stretched(frames@, op_start, op_end),
{
    let mut res: Vec<DebugSourceCallFrame> = Vec::new();
    let mut i: usize = 0;
    while i < frames.len()
        invariant
            i <= frames@.len(),
            res@ =~= stretched(frames@, op_start, op_end).take(i as int),
        decreases frames@.len() - i,
    {
        let mut frame = frames[i];
        frame.op_start = op_start;
        frame.op_end = op_end;
        res.push(frame);
        i += 1;
    }
    assert(res@ =~= stretched(frames@, op_start, op_end));
    res
}

/// What holds after the first boundaries have been resolved.
spec fn resolving(
    before: GraphModel,
    now: GraphModel,
    exec: u32,
    concrete: int,
    list: Seq<u32>,
    i: int,
) -> bool {
    &&& now.wf()
    &&& before.nodes.len() <= now.nodes.len()
    &&& now.roots == before.roots
    &&& now.functions == before.functions
    &&& now.history == before.history
    &&& forall|s: int|
        0 <= s < before.nodes.len() && !list.take(i).contains(s as u32) ==> (
        #[trigger] now.nodes[s]) == before.nodes[s] && now.boundary[s] == before.boundary[s]
    &&& forall|q: int|
        0 <= q < i ==> {
            let s = (#[trigger] list[q]) as int;
            &&& now.nodes[s].exec_node == exec
            &&& !now.boundary[s]
            &&& resolves(
                now,
                before.nodes.len(),
                before.nodes[s],
                before.nodes[concrete],
                before.boundary[concrete],
                now.nodes[s],
            )
        }
}

/// One more boundary resolved.
proof fn lemma_resolving_step(
    before: GraphModel,
    now: GraphModel,
    mid: GraphModel,
    next: GraphModel,
    exec: u32,
    concrete: int,
    list: Seq<u32>,
    i: int,
    copies: Seq<Option<u32>>,
    node: SourceModel,
)
    requires
        before.wf(),
        list == boundaries_of(before, exec, before.nodes.len()),
        resolving(before, now, exec, concrete, list, i),
        0 <= i < list.len(),
        0 <= concrete < before.nodes.len(),
        !before.boundary[concrete],
        before.nodes[concrete].exec_node == exec,
        mid.wf(),
        appended(now, mid),
        next.roots == mid.roots,
        next.functions == mid.functions,
        next.history == mid.history,
        next.nodes == mid.nodes.update(list[i] as int, node),
        next.boundary == mid.boundary.update(list[i] as int, false),
        ({
            let b = before.nodes[list[i] as int];
            let c = before.nodes[concrete];
            let frames = stretched(b.call_frames, c.op_start, c.op_end);
            if b.inline_calls.len() == 0 {
                mid == now && node == (SourceModel { call_frames: frames + c.call_frames, ..c })
            } else {
                let copy = decorated(c, false, b.inline_calls, copies);
                &&& copies.len() == now.nodes.len()
                &&& copies_of(mid, copies.len(), b.inline_calls, copies)
                &&& forall|j: int|
                    0 <= j < c.children.len() ==> (#[trigger] c.children[j]) < copies.len()
                        && copies[c.children[j] as int] is Some
                &&& node == (SourceModel { call_frames: frames + copy.call_frames, ..copy })
            }
        }),
    ensures
        resolving(before, next, exec, concrete, list, i + 1),
{
    let n = before.nodes.len() as int;
    let at = list[i] as int;
    let b = before.nodes[at];
    let c = before.nodes[concrete];
    lemma_boundaries_of(before, exec, before.nodes.len());
    assert(at < n && is_boundary_of(before, at, exec));
    let front = list.take(i);
    let longer = list.take(i + 1);
    assert(longer =~= front.push(list[i]));
    assert forall|s: int| 0 <= s < now.nodes.len() implies mid.nodes[s] == now.nodes[s]
        && mid.boundary[s] == now.boundary[s] by {
        assert(mid.nodes.take(now.nodes.len() as int)[s] == now.nodes[s]);
        assert(mid.boundary.take(now.boundary.len() as int)[s] == now.boundary[s]);
    }
    assert forall|s: int| 0 <= s < n && !longer.contains(s as u32) implies (#[trigger] next.nodes[s])
        == before.nodes[s] && next.boundary[s] == before.boundary[s] by {
        if front.contains(s as u32) {
            let q = choose|q: int| 0 <= q < front.len() && front[q] == s as u32;
            assert(longer[q] == s as u32);
        }
        assert(longer[i] == list[i]);
        assert(s != at);
        assert(now.nodes[s] == before.nodes[s]);
    }
    // The frames of the new node count as before; its children are occurrences.
    assert(node.exec_node == exec);
    assert(range_ok(before.nodes[concrete]));
    assert(resolves(next, before.nodes.len(), b, c, before.boundary[concrete], node)) by {
        if b.inline_calls.len() > 0 {
            assert(was_copied(mid, next, before.nodes.len(), b.inline_calls, copies, c)) by {
                assert forall|k: int| copies.len() <= k < mid.nodes.len() implies #[trigger] next.nodes[k]
                    == mid.nodes[k] by {
                    assert(k >= now.nodes.len() >= n);
                }
            }
        }
    }
    assert forall|q: int| 0 <= q < i + 1 implies ({
        let s = (#[trigger] list[q]) as int;
        &&& next.nodes[s].exec_node == exec
        &&& !next.boundary[s]
        &&& resolves(
            next,
            before.nodes.len(),
            before.nodes[s],
            before.nodes[concrete],
            before.boundary[concrete],
            next.nodes[s],
        )
    }) by {
        let s = list[q] as int;
        if q < i {
            assert(s != at);
            assert(s < n);
            assert(now.nodes[s].exec_node == exec);
            let bs = before.nodes[s];
            if bs.inline_calls.len() > 0 {
                let (ag, cs) = choose|ag: GraphModel, cs: Seq<Option<u32>>|
                    #[trigger] was_copied(ag, now, before.nodes.len(), bs.inline_calls, cs, c) && now.nodes[s] == ({
                        let copy = decorated(c, before.boundary[concrete], bs.inline_calls, cs);
                        SourceModel {
                            call_frames: stretched(bs.call_frames, c.op_start, c.op_end)
                                + copy.call_frames,
                            ..copy
                        }
                    });
                assert(was_copied(ag, next, before.nodes.len(), bs.inline_calls, cs, c)) by {
                    assert forall|k: int| cs.len() <= k < ag.nodes.len() implies #[trigger] next.nodes[k]
                        == ag.nodes[k] by {
                        assert(now.nodes[k] == ag.nodes[k]);
                        assert(k >= n);
                    }
                }
            }
        }
    }
    assert(next.wf()) by {
        assert forall|s: int| 0 <= s < next.nodes.len() implies (#[trigger] next.nodes[s]).exec_node
            < next.history.len() && range_ok(next.nodes[s]) by {
            assert(mid.nodes[s].exec_node < mid.history.len());
            assert(before.nodes[concrete].exec_node < before.history.len());
        }
        assert forall|s: int, j: int|
            0 <= s < next.nodes.len() && 0 <= j < next.nodes[s].children.len() implies (
        #[trigger] next.nodes[s].children[j]) < next.nodes.len() by {
            if s == at {
                if b.inline_calls.len() == 0 {
                    assert(before.nodes[concrete].children[j] < before.nodes.len());
                } else {
                    let child = c.children[j];
                    assert(child < copies.len() && copies[child as int] is Some);
                }
            } else {
                assert(mid.nodes[s].children[j] < mid.nodes.len());
            }
        }
        assert forall|r: int, j: int|
            0 <= r < next.history.len() && 0 <= j < next.history[r].len() implies (
        #[trigger] next.history[r][j]) < next.nodes.len()
            && next.nodes[next.history[r][j] as int].exec_node == r by {
            let h = mid.history[r][j];
            assert(h < mid.nodes.len() && mid.nodes[h as int].exec_node == r);
            assert(mid.nodes[at].exec_node == exec) by {
                assert(now.nodes[at] == before.nodes[at]) by {
                    assert(!front.contains(at as u32)) by {
                        if front.contains(at as u32) {
                            let q = choose|q: int| 0 <= q < front.len() && front[q] == at as u32;
                            assert(list[q] == list[i]);
                        }
                    }
                }
            }
        }
    }
}

/// Why the boundaries of a graph cannot be resolved: its references are used up, an occurrence
/// leads back to itself, or a frame could not count the calls around a boundary.
pub open spec fn boundary_spent(g: GraphModel, e: BuildError) -> bool {
    match e {
        BuildError::TooManyInlineCalls => exists|at: int|
            0 <= at < g.nodes.len() && #[trigger] g.boundary[at] && graph_spent(
                g,
                g.nodes[at].inline_calls.len(),
                e,
            ),
        _ => graph_spent(g, 0, e),
    }
}

impl SourceGraph {
    fn boundary_list(&self, exec: u32) -> (list: Vec<u32>)
        requires
            self@.wf(),
        ensures
            list@ == boundaries_of(self@, exec, self@.nodes.len()),
    {
        let mut list: Vec<u32> = Vec::new();
        let mut i: usize = 0;
        while i < self.nodes.len()
            invariant
                i <= self.nodes@.len() <= u32::MAX,
                self@.wf(),
                list@ == boundaries_of(self@, exec, i as nat),
            decreases self.nodes@.len() - i,
        {
            assert(self@.nodes[i as int] == self.nodes@[i as int]@);
            if self.boundary[i] && self.nodes[i].exec_node == exec {
                list.push(i as u32);
            }
            i += 1;
        }
        list
    }

    /// Resolves the boundaries of an execution node to a concrete occurrence of it.
    pub fn remap_external_boundary_occurrences(&mut self, exec: u32, concrete: u32) -> (res: Result<
        (),
        BuildError,
    >)
        requires
            old(self)@.wf(),
            concrete < old(self)@.nodes.len(),
            !old(self)@.boundary[concrete as int],
            old(self)@.nodes[concrete as int].exec_node == exec,
        ensures
            final(self)@.wf(),
            match res {
                Ok(_) => boundaries_resolved(old(self)@, final(self)@, exec, concrete as int),
                Err(e) => boundary_spent(final(self)@, e),
            },
            (forall|s: int|
                0 <= s < old(self)@.nodes.len() ==> !#[trigger] is_boundary_of(
                    old(self)@,
                    s,
                    exec,
                )) ==> res is Ok && final(self)@ == old(self)@,
    {
        let ghost before = self@;
        let list = self.boundary_list(exec);
        proof {
            lemma_boundaries_of(before, exec, before.nodes.len());
            assert(list@.take(0) =~= Seq::<u32>::empty());
            if forall|s: int|
                0 <= s < before.nodes.len() ==> !#[trigger] is_boundary_of(before, s, exec) {
                if list@.len() > 0 {
                    assert(is_boundary_of(before, list@[0] as int, exec));
                }
            }
        }
        let mut i: usize = 0;
        while i < list.len()
            invariant
                i <= list@.len(),
                before.wf(),
                list@ == boundaries_of(before, exec, before.nodes.len()),
                concrete < before.nodes.len(),
                !before.boundary[concrete as int],
                before.nodes[concrete as int].exec_node == exec,
                resolving(before, self@, exec, concrete as int, list@, i as int),
                list@.len() == 0 ==> self@ == before,
                old(self)@ == before,
                (forall|s: int|
                    0 <= s < before.nodes.len() ==> !#[trigger] is_boundary_of(before, s, exec))
                    ==> list@.len() == 0,
            decreases list@.len() - i,
        {
            let ghost now = self@;
            let at: usize = list[i] as usize;
            proof {
                lemma_boundaries_of(before, exec, before.nodes.len());
                assert(is_boundary_of(before, list@[i as int] as int, exec));
                let front = list@.take(i as int);
                if front.contains(list@[i as int]) {
                    let q = choose|q: int| 0 <= q < front.len() && front[q] == list@[i as int];
                    assert(list@[q] == list@[i as int]);
                }
                if front.contains(concrete) {
                    let q = choose|q: int| 0 <= q < front.len() && front[q] == concrete;
                    assert(is_boundary_of(before, list@[q] as int, exec));
                }
                assert(at as int as u32 == list@[i as int]);
                assert(concrete as int as u32 == concrete);
                assert(now.nodes[at as int] == before.nodes[at as int]);
                assert(now.nodes[concrete as int] == before.nodes[concrete as int]);
                assert(now.boundary[concrete as int] == before.boundary[concrete as int]);
                assert(now.nodes[at as int] == self.nodes@[at as int]@);
                assert(now.nodes[concrete as int] == self.nodes@[concrete as int]@);
            }
            let chain = copy_vec(&self.nodes[at].inline_calls);
            let outer = copy_vec(&self.nodes[at].call_frames);
            let ghost mut copied: Seq<Option<u32>> = Seq::empty();
            let mut node = if chain.len() == 0 {
                self.nodes[concrete as usize].copy()
            } else {
                let copies = match self.clone_below(concrete, &chain) {
                    Ok(copies) => copies,
                    Err(e) => {
                        return Err(e);
                    },
                };
                proof {
                    copied = copies@;
                    assert(self@.nodes.take(now.nodes.len() as int)[concrete as int]
                        == now.nodes[concrete as int]);
                    assert(self@.boundary.take(now.boundary.len() as int)[concrete as int]
                        == now.boundary[concrete as int]);
                    assert forall|j: int|
                        0 <= j < self@.nodes[concrete as int].children.len() implies (
                    #[trigger] self@.nodes[concrete as int].children[j]) < copies@.len()
                        && copies@[self@.nodes[concrete as int].children[j] as int] is Some by {
                        assert(now.nodes[concrete as int].children[j] < now.nodes.len());
                    }
                }
                match self.source_occurrence_with_cloned_children_and_inline_calls(
                    concrete,
                    &chain,
                    &copies,
                ) {
                    Ok(node) => node,
                    Err(e) => {
                        return Err(e);
                    },
                }
            };
            let ghost mid = self@;
            let ghost inner = node@;
            let mut frames = stretch(&outer, node.op_start, node.op_end);
            let mut own = copy_vec(&node.call_frames);
            frames.append(&mut own);
            node.call_frames = frames;
            let ghost model = node@;
            proof {
                assert(mid.nodes.take(now.nodes.len() as int) =~= now.nodes);
                assert(mid.boundary.take(now.nodes.len() as int) =~= now.boundary);
                assert(appended(now, mid));
            }
            self.nodes[at] = node;
            self.boundary[at] = false;
            proof {
                let c = before.nodes[concrete as int];
                let b = before.nodes[at as int];
                assert(model.call_frames =~= stretched(b.call_frames, c.op_start, c.op_end)
                    + inner.call_frames);
                assert(self@.nodes =~= mid.nodes.update(at as int, model));
                assert(self@.boundary =~= mid.boundary.update(at as int, false));
                lemma_resolving_step(
                    before,
                    now,
                    mid,
                    self@,
                    exec,
                    concrete as int,
                    list@,
                    i as int,
                    copied,
                    model,
                );
            }
            i += 1;
        }
        proof {
            assert(list@.take(i as int) =~= list@);
            lemma_boundaries_of(before, exec, before.nodes.len());
            let after = self@;
            assert forall|s: int|
                0 <= s < before.nodes.len() && is_boundary_of(before, s, exec) implies (
            #[trigger] after.nodes[s]).exec_node == exec && !after.boundary[s] && resolves(
                after,
                before.nodes.len(),
                before.nodes[s],
                before.nodes[concrete as int],
                before.boundary[concrete as int],
                after.nodes[s],
            ) by {
                assert(list@.contains(s as u32));
                let q = choose|q: int| 0 <= q < list@.len() && list@[q] == s as u32;
                assert(list@[q] as int == s);
            }
            assert forall|s: int|
                0 <= s < before.nodes.len() && !is_boundary_of(before, s, exec) implies (
            #[trigger] after.nodes[s]) == before.nodes[s] && after.boundary[s]
                == before.boundary[s] by {
                if list@.contains(s as u32) {
                    let q = choose|q: int| 0 <= q < list@.len() && list@[q] == s as u32;
                    assert(is_boundary_of(before, list@[q] as int, exec));
                }
            }
        }
        Ok(())
    }
}

/// An occurrence that stood for code that was not there reads, once the code is there, like the
/// occurrence of the code itself: the same node, range, rows of operations and variables, under the
/// inlined calls that it stood under, and its own call frames around those of the code.
pub proof fn law_resolved_occurrences_read_like_the_code(
    graph: GraphModel,
    n: nat,
    boundary: SourceModel,
    concrete: SourceModel,
    concrete_is_boundary: bool,
    node: SourceModel,
)
    requires
        resolves(graph, n, boundary, concrete, concrete_is_boundary, node),
    ensures
        node.exec_node == concrete.exec_node,
        node.op_start == concrete.op_start,
        node.op_end == concrete.op_end,
        node.asm_ops == concrete.asm_ops,
        node.debug_vars == concrete.debug_vars,
        node.children.len() == concrete.children.len(),
        node.call_frames.len() == boundary.call_frames.len() + concrete.call_frames.len(),
        forall|i: int|
            0 <= i < boundary.call_frames.len() ==> (#[trigger] node.call_frames[i])
                == (DebugSourceCallFrame {
                op_start: concrete.op_start,
                op_end: concrete.op_end,
                ..boundary.call_frames[i]
            }),
        boundary.inline_calls.len() == 0 ==> node.inline_calls == concrete.inline_calls
            && node.children == concrete.children,
        boundary.inline_calls.len() > 0 ==> forall|op_idx: u32|
            concrete.op_start <= op_idx < concrete.op_end ==> #[trigger] calls_at(
                node.inline_calls,
                op_idx,
                node.inline_calls.len(),
            ) == calls_at(concrete.inline_calls, op_idx, concrete.inline_calls.len()) + chain_at(
                boundary.inline_calls,
                op_idx,
            ),
{
    let chain = boundary.inline_calls;
    if chain.len() > 0 {
        assert forall|op_idx: u32| concrete.op_start <= op_idx < concrete.op_end implies (
        #[trigger] calls_at(node.inline_calls, op_idx, node.inline_calls.len())) == calls_at(
            concrete.inline_calls,
            op_idx,
            concrete.inline_calls.len(),
        ) + chain_at(chain, op_idx) by {
            law_every_operation_is_under_the_chain(concrete, concrete_is_boundary, chain, op_idx);
        }
    }
}

} // verus!
