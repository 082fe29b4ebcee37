//! The source occurrences of a forest under construction.
//!
//! Execution nodes are shared, occurrences are not: every use of a node keeps an occurrence of its
//! own, and a new use never changes which occurrence an earlier parent refers to.

use vstd::prelude::*;

use crate::debug_info::{
    copy_vec, source_models, DebugSourceCallFrame, DebugSourceInlineCall, SourceModel, SourceNode,
};
use crate::felt::Word;
use crate::graph::{
    child_lists, has_cycle, is_path, is_post_order, law_post_order_acyclic, leads_to, post_order,
    reaches,
};

verus! {

/// Why a forest cannot be built further.
#[derive(Clone, Copy, PartialEq, Eq, Structural, Debug)]
pub enum BuildError {
    TooManyNodes,
    TooManySources,
    TooManyOperations,
    TooManyInlineCalls,
    CyclicSources,
    EmptyBasicBlock,
    RowsOutOfRange,
}

/// A source-level function.
#[derive(Clone, Copy, PartialEq, Eq, Structural, Debug)]
pub struct FunctionInfo {
    pub source_node: Option<u32>,
    pub name_idx: u32,
    pub linkage_name_idx: Option<u32>,
    pub file_idx: u32,
    pub line: u32,
    pub column: u32,
    pub type_idx: Option<u32>,
    pub mast_root: Word,
}

/// The occurrences recorded so far.
pub struct SourceGraph {
    /// The occurrences in the order of their creation.
    pub nodes: Vec<SourceNode>,
    /// Whether an occurrence stands for code that was not available when it was recorded.
    pub boundary: Vec<bool>,
    /// The occurrences of procedure roots.
    pub roots: Vec<u32>,
    pub functions: Vec<FunctionInfo>,
    /// For each execution node, its selectable occurrences in the order of their creation.
    pub history: Vec<Vec<u32>>,
}

/// The contents of a [`SourceGraph`].
pub ghost struct GraphModel {
    pub nodes: Seq<SourceModel>,
    pub boundary: Seq<bool>,
    pub roots: Seq<u32>,
    pub functions: Seq<FunctionInfo>,
    pub history: Seq<Seq<u32>>,
}

/// The range of an occurrence does not end before it starts.
pub open spec fn range_ok(node: SourceModel) -> bool {
    node.op_start <= node.op_end
}

impl GraphModel {
    /// References lie inside the graph, ranges do not end before they start, and an execution
    /// node's selectable occurrences are occurrences of it.
    pub open spec fn wf(self) -> bool {
        &&& self.nodes.len() <= u32::MAX
        &&& self.boundary.len() == self.nodes.len()
        &&& forall|s: int|
            0 <= s < self.nodes.len() ==> (#[trigger] self.nodes[s]).exec_node < self.history.len()
                && range_ok(self.nodes[s])
        &&& forall|s: int, j: int|
            0 <= s < self.nodes.len() && 0 <= j < self.nodes[s].children.len() ==> (
            #[trigger] self.nodes[s].children[j]) < self.nodes.len()
        &&& forall|i: int|
            0 <= i < self.roots.len() ==> (#[trigger] self.roots[i]) < self.nodes.len()
        &&& forall|i: int|
            0 <= i < self.functions.len() && (#[trigger] self.functions[i]).source_node is Some
                ==> self.functions[i].source_node->0 < self.nodes.len()
        &&& forall|r: int, j: int|
            0 <= r < self.history.len() && 0 <= j < self.history[r].len() ==> (
            #[trigger] self.history[r][j]) < self.nodes.len() && self.nodes[self.history[r][j] as int].exec_node
                == r
    }

    /// The functions with those in `list` at occurrence `source`.
    pub open spec fn functions_at(
        functions: Seq<FunctionInfo>,
        list: Seq<u32>,
        source: u32,
    ) -> Seq<FunctionInfo> {
        Seq::new(
            functions.len(),
            |i: int|
                if is_listed(list, i) {
                    FunctionInfo { source_node: Some(source), ..functions[i] }
                } else {
                    functions[i]
                },
        )
    }

    /// The graph with one more occurrence.
    pub open spec fn pushed(
        self,
        node: SourceModel,
        functions: Seq<u32>,
        boundary: bool,
        latest: bool,
    ) -> GraphModel {
        let source = self.nodes.len() as u32;
        let r = node.exec_node as int;
        GraphModel {
            nodes: self.nodes.push(node),
            boundary: self.boundary.push(boundary),
            roots: self.roots,
            functions: GraphModel::functions_at(self.functions, functions, source),
            history: if latest {
                self.history.update(r, self.history[r].push(source))
            } else {
                self.history
            },
        }
    }

    /// The children of each occurrence.
    pub open spec fn children(self) -> Seq<Seq<u32>> {
        Seq::new(self.nodes.len(), |i: int| self.nodes[i].children)
    }
}

/// `after` holds what `before` holds, and occurrences behind it.
pub open spec fn appended(before: GraphModel, after: GraphModel) -> bool {
    &&& before.nodes.len() <= after.nodes.len()
    &&& after.nodes.take(before.nodes.len() as int) == before.nodes
    &&& after.boundary.take(before.boundary.len() as int) == before.boundary
    &&& after.roots == before.roots
    &&& after.functions == before.functions
    &&& after.history == before.history
}

impl SourceGraph {
    pub open spec fn view(&self) -> GraphModel {
        GraphModel {
            nodes: source_models(self.nodes@),
            boundary: self.boundary@,
            roots: self.roots@,
            functions: self.functions@,
            history: child_lists(self.history@),
        }
    }

    /// A graph without occurrences.
    pub fn new() -> (graph: SourceGraph)
        ensures
            graph@.wf(),
            graph@.nodes.len() == 0,
            graph@.roots.len() == 0,
            graph@.functions.len() == 0,
            graph@.history.len() == 0,
    {
        SourceGraph {
            nodes: Vec::new(),
            boundary: Vec::new(),
            roots: Vec::new(),
            functions: Vec::new(),
            history: Vec::new(),
        }
    }

    /// Makes room for the occurrences of one more execution node.
    pub fn add_exec_node(&mut self)
        requires
            old(self)@.wf(),
        ensures
            final(self)@.wf(),
            final(self)@ == (GraphModel {
                history: old(self)@.history.push(Seq::empty()),
                ..old(self)@
            }),
    {
        let ghost before = self@;
        self.history.push(Vec::new());
        proof {
            assert(self@.history =~= before.history.push(Seq::empty()));
            assert(self@.nodes =~= before.nodes);
            assert forall|s: int| 0 <= s < self@.nodes.len() implies (
            #[trigger] self@.nodes[s]).exec_node < self@.history.len() && range_ok(
                self@.nodes[s],
            ) by {
                assert(before.nodes[s].exec_node < before.history.len());
            }
            assert forall|r: int, j: int|
                0 <= r < self@.history.len() && 0 <= j < self@.history[r].len() implies (
            #[trigger] self@.history[r][j]) < self@.nodes.len()
                && self@.nodes[self@.history[r][j] as int].exec_node == r by {
                assert(self@.history[r] == before.history[r]);
                assert(before.history[r][j] < before.nodes.len());
            }
        }
    }

    /// Records an occurrence.
    ///
    /// The functions in `functions` move to it. With `latest` it becomes selectable as the latest
    /// occurrence of its execution node.
    pub fn push(&mut self, node: SourceNode, functions: &Vec<u32>, boundary: bool, latest: bool) -> (
    res: Result<u32, BuildError>)
        requires
            old(self)@.wf(),
            node@.exec_node < old(self)@.history.len(),
            range_ok(node@),
            forall|j: int|
                0 <= j < node@.children.len() ==> (#[trigger] node@.children[j])
                    < old(self)@.nodes.len(),
        ensures
            final(self)@.wf(),
            if old(self)@.nodes.len() >= u32::MAX {
                res == Err::<u32, BuildError>(BuildError::TooManySources) && final(self)@ == old(
                    self,
                )@
            } else {
                res == Ok::<u32, BuildError>(old(self)@.nodes.len() as u32) && final(self)@ == old(
                    self,
                )@.pushed(node@, functions@, boundary, latest)
            },
    {
        let ghost before = self@;
        if self.nodes.len() >= u32::MAX as usize {
            return Err(BuildError::TooManySources);
        }
        let source: u32 = self.nodes.len() as u32;
        let exec_node: usize = node.exec_node as usize;
        let ghost model = node@;
        self.nodes.push(node);
        self.boundary.push(boundary);
        self.set_functions(functions, source);
        if latest {
            let mut list = copy_vec(&self.history[exec_node]);
            list.push(source);
            self.history[exec_node] = list;
        }
        proof {
            let after = before.pushed(model, functions@, boundary, latest);
            assert(self@.nodes =~= after.nodes);
            assert(self@.boundary =~= after.boundary);
            assert(self@.functions =~= after.functions);
            assert(self@.history =~= after.history);
            lemma_pushed_wf(before, model, functions@, boundary, latest);
        }
        Ok(source)
    }

    /// Moves functions to an occurrence.
    fn set_functions(&mut self, list: &Vec<u32>, source: u32)
        ensures
            final(self).nodes == old(self).nodes,
            final(self).boundary == old(self).boundary,
            final(self).roots == old(self).roots,
            final(self).history == old(self).history,
            final(self).functions@ == GraphModel::functions_at(
                old(self).functions@,
                list@,
                source,
            ),
    {
        let ghost before = self.functions@;
        let mut i: usize = 0;
        assert(self.functions@ =~= GraphModel::functions_at(before, list@.take(0), source));
        while i < list.len()
            invariant
                i <= list@.len(),
                self.nodes == old(self).nodes,
                self.boundary == old(self).boundary,
                self.roots == old(self).roots,
                self.history == old(self).history,
                self.functions@ == GraphModel::functions_at(
                    before,
                    list@.take(i as int),
                    source,
                ),
            decreases list@.len() - i,
        {
            let f: usize = list[i] as usize;
            if f < self.functions.len() {
                let mut function = self.functions[f];
                function.source_node = Some(source);
                self.functions[f] = function;
            }
            proof {
                let now = list@.take(i as int);
                let next = list@.take(i + 1);
                assert(next =~= now.push(list@[i as int]));
                assert forall|k: int| 0 <= k < before.len() implies #[trigger] self.functions@[k]
                    == GraphModel::functions_at(before, next, source)[k] by {
                    assert(is_listed(next, k) <==> (is_listed(now, k) || k == list@[i as int])) by {
                        if is_listed(now, k) {
                            let q = choose|q: int| 0 <= q < now.len() && #[trigger] now[q] == k;
                            assert(next[q] == k);
                        }
                        if k == list@[i as int] {
                            assert(next[i as int] == k);
                        }
                        if is_listed(next, k) {
                            let q = choose|q: int| 0 <= q < next.len() && #[trigger] next[q] == k;
                            if q < now.len() {
                                assert(now[q] == k);
                            }
                        }
                    }
                }
                assert(self.functions@ =~= GraphModel::functions_at(before, next, source));
            }
            i += 1;
        }
        assert(list@.take(i as int) =~= list@);
    }

    /// Moves functions to an occurrence that exists.
    pub fn move_functions(&mut self, list: &Vec<u32>, source: u32)
        requires
            old(self)@.wf(),
            source < old(self)@.nodes.len(),
        ensures
            final(self)@.wf(),
            final(self)@ == (GraphModel {
                functions: GraphModel::functions_at(old(self)@.functions, list@, source),
                ..old(self)@
            }),
    {
        self.set_functions(list, source);
    }

    /// The functions at an occurrence.
    pub fn function_indices_for_source_ref(&self, source: u32) -> (list: Vec<u32>)
        requires
            self@.functions.len() <= u32::MAX,
        ensures
            list@ == functions_of(self@.functions, source, self@.functions.len()),
    {
        let mut list: Vec<u32> = Vec::new();
        let mut i: usize = 0;
        while i < self.functions.len()
            invariant
                i <= self.functions@.len() <= u32::MAX,
                list@ == functions_of(self.functions@, source, i as nat),
            decreases self.functions@.len() - i,
        {
            if let Some(s) = self.functions[i].source_node {
                if s == source {
                    list.push(i as u32);
                }
            }
            i += 1;
        }
        list
    }

    /// The latest selectable occurrence of an execution node.
    pub fn latest(&self, exec_node: u32) -> (source: Option<u32>)
        requires
            exec_node < self@.history.len(),
        ensures
            source == if self@.history[exec_node as int].len() > 0 {
                Some(self@.history[exec_node as int].last())
            } else {
                None::<u32>
            },
    {
        let list = &self.history[exec_node as usize];
        if list.len() > 0 {
            Some(list[list.len() - 1])
        } else {
            None
        }
    }

    /// Appends a function.
    pub fn add_function(&mut self, function: FunctionInfo)
        requires
            old(self)@.wf(),
            function.source_node matches Some(s) ==> s < old(self)@.nodes.len(),
        ensures
            final(self)@.wf(),
            final(self)@ == (GraphModel {
                functions: old(self)@.functions.push(function),
                ..old(self)@
            }),
    {
        self.functions.push(function);
    }

    /// Marks an occurrence as a root, once.
    pub fn add_root(&mut self, source: u32)
        requires
            old(self)@.wf(),
            source < old(self)@.nodes.len(),
        ensures
            final(self)@.wf(),
            final(self)@ == (GraphModel {
                roots: if old(self)@.roots.contains(source) {
                    old(self)@.roots
                } else {
                    old(self)@.roots.push(source)
                },
                ..old(self)@
            }),
    {
        let mut i: usize = 0;
        while i < self.roots.len()
            invariant
                i <= self.roots@.len(),
                self == old(self),
                old(self)@.wf(),
                forall|j: int| 0 <= j < i ==> self.roots@[j] != source,
            decreases self.roots@.len() - i,
        {
            if self.roots[i] == source {
                return;
            }
            i += 1;
        }
        self.roots.push(source);
    }
}

/// Index `i` is in a list.
pub open spec fn is_listed(list: Seq<u32>, i: int) -> bool {
    exists|j: int| 0 <= j < list.len() && #[trigger] list[j] == i
}

/// The functions among the first `k` that are at occurrence `source`.
pub open spec fn functions_of(functions: Seq<FunctionInfo>, source: u32, k: nat) -> Seq<u32>
    decreases k,
{
    if k == 0 {
        Seq::empty()
    } else if functions[k - 1].source_node == Some(source) {
        functions_of(functions, source, (k - 1) as nat).push((k - 1) as u32)
    } else {
        functions_of(functions, source, (k - 1) as nat)
    }
}

pub proof fn lemma_pushed_wf(
    graph: GraphModel,
    node: SourceModel,
    functions: Seq<u32>,
    boundary: bool,
    latest: bool,
)
    requires
        graph.wf(),
        graph.nodes.len() < u32::MAX,
        node.exec_node < graph.history.len(),
        range_ok(node),
        forall|j: int|
            0 <= j < node.children.len() ==> (#[trigger] node.children[j]) < graph.nodes.len(),
    ensures
        graph.pushed(node, functions, boundary, latest).wf(),
{
    let after = graph.pushed(node, functions, boundary, latest);
    let n = graph.nodes.len();
    assert forall|s: int| 0 <= s < after.nodes.len() implies (#[trigger] after.nodes[s]).exec_node
        < after.history.len() && range_ok(after.nodes[s]) by {
        if s < n {
            assert(after.nodes[s] == graph.nodes[s]);
        }
    }
    assert forall|s: int, j: int|
        0 <= s < after.nodes.len() && 0 <= j < after.nodes[s].children.len() implies (
    #[trigger] after.nodes[s].children[j]) < after.nodes.len() by {
        if s < n {
            assert(after.nodes[s] == graph.nodes[s]);
            assert(graph.nodes[s].children[j] < n);
        } else {
            assert(node.children[j] < n);
        }
    }
    assert forall|r: int, j: int|
        0 <= r < after.history.len() && 0 <= j < after.history[r].len() implies (
    #[trigger] after.history[r][j]) < after.nodes.len()
        && after.nodes[after.history[r][j] as int].exec_node == r by {
        if j < graph.history[r].len() {
            assert(after.history[r][j] == graph.history[r][j]);
            assert(graph.history[r][j] < n);
        }
    }
    assert forall|i: int|
        0 <= i < after.functions.len() && (#[trigger] after.functions[i]).source_node is Some implies after.functions[i].source_node->0
        < after.nodes.len() by {
        assert(graph.functions[i].source_node is Some ==> graph.functions[i].source_node->0 < n);
    }
}

// INLINED CALLS
// ================================================================================================

/// The calls of a chain at one operation.
pub open spec fn chain_at(chain: Seq<DebugSourceInlineCall>, op_idx: u32) -> Seq<
    DebugSourceInlineCall,
> {
    Seq::new(chain.len(), |i: int| DebugSourceInlineCall { op_idx, ..chain[i] })
}

/// Those of the first `k` calls that are at one operation.
pub open spec fn calls_at(calls: Seq<DebugSourceInlineCall>, op_idx: u32, k: nat) -> Seq<
    DebugSourceInlineCall,
>
    decreases k,
{
    if k == 0 {
        Seq::empty()
    } else if calls[k - 1].op_idx == op_idx {
        calls_at(calls, op_idx, (k - 1) as nat).push(calls[k - 1])
    } else {
        calls_at(calls, op_idx, (k - 1) as nat)
    }
}

/// At each of the `k` operations from `start` on, the calls that are there and then the chain.
pub open spec fn spread(
    calls: Seq<DebugSourceInlineCall>,
    chain: Seq<DebugSourceInlineCall>,
    start: u32,
    k: nat,
) -> Seq<DebugSourceInlineCall>
    decreases k,
{
    if k == 0 {
        Seq::empty()
    } else {
        let op_idx = (start + k - 1) as u32;
        spread(calls, chain, start, (k - 1) as nat) + calls_at(calls, op_idx, calls.len())
            + chain_at(chain, op_idx)
    }
}

/// The calls of an occurrence under a chain. An occurrence without operations carries the chain
/// only where it stands for code that is not there yet.
pub open spec fn decorated_calls(
    node: SourceModel,
    boundary: bool,
    chain: Seq<DebugSourceInlineCall>,
) -> Seq<DebugSourceInlineCall> {
    if node.op_start == node.op_end && boundary {
        node.inline_calls + chain_at(chain, node.op_start)
    } else {
        spread(node.inline_calls, chain, node.op_start, (node.op_end - node.op_start) as nat)
    }
}

/// The call frames of an occurrence under `n` more inherited calls.
pub open spec fn inherited_frames(frames: Seq<DebugSourceCallFrame>, n: nat) -> Seq<
    DebugSourceCallFrame,
> {
    Seq::new(
        frames.len(),
        |i: int|
            DebugSourceCallFrame {
                inherited_inline_calls: (frames[i].inherited_inline_calls + n) as u32,
                ..frames[i]
            },
    )
}

/// The copy of an occurrence under a chain, with its children replaced by their copies.
pub open spec fn decorated(
    node: SourceModel,
    boundary: bool,
    chain: Seq<DebugSourceInlineCall>,
    copies: Seq<Option<u32>>,
) -> SourceModel {
    SourceModel {
        children: Seq::new(node.children.len(), |j: int| copies[node.children[j] as int]->0),
        inline_calls: decorated_calls(node, boundary, chain),
        call_frames: inherited_frames(node.call_frames, chain.len()),
        ..node
    }
}

/// The inherited calls of all frames can still be counted under `n` more.
pub open spec fn frames_fit(frames: Seq<DebugSourceCallFrame>, n: nat) -> bool {
    forall|i: int|
        0 <= i < frames.len() ==> (#[trigger] frames[i]).inherited_inline_calls + n <= u32::MAX
}

/// The copies that were made of the first `n` occurrences: each is the occurrence under the chain,
/// over the copies of its children.
pub open spec fn copies_of(
    graph: GraphModel,
    n: nat,
    chain: Seq<DebugSourceInlineCall>,
    copies: Seq<Option<u32>>,
) -> bool {
    &&& copies.len() == n <= graph.nodes.len()
    &&& forall|s: int|
        0 <= s < n && (#[trigger] copies[s]) is Some ==> {
            let c = copies[s]->0 as int;
            &&& n <= c < graph.nodes.len()
            &&& graph.nodes[c] == decorated(graph.nodes[s], graph.boundary[s], chain, copies)
            &&& graph.boundary[c] == graph.boundary[s]
            &&& forall|j: int|
                0 <= j < graph.nodes[s].children.len() ==> (#[trigger] graph.nodes[s].children[j])
                    < n && copies[graph.nodes[s].children[j] as int] is Some
        }
}

fn push_chain(out: &mut Vec<DebugSourceInlineCall>, chain: &Vec<DebugSourceInlineCall>, op_idx: u32)
    ensures
        final(out)@ == old(out)@ + chain_at(chain@, op_idx),
{
    let ghost before = out@;
    let mut i: usize = 0;
    while i < chain.len()
        invariant
            i <= chain@.len(),
            out@ =~= before + chain_at(chain@, op_idx).take(i as int),
        decreases chain@.len() - i,
    {
        out.push(
            DebugSourceInlineCall {
                op_idx,
                callee_idx: chain[i].callee_idx,
                loc_idx: chain[i].loc_idx,
            },
        );
        i += 1;
    }
    assert(chain_at(chain@, op_idx).take(i as int) =~= chain_at(chain@, op_idx));
}

fn push_calls_at(out: &mut Vec<DebugSourceInlineCall>, calls: &Vec<DebugSourceInlineCall>, op_idx: u32)
    ensures
        final(out)@ == old(out)@ + calls_at(calls@, op_idx, calls@.len()),
{
    let ghost before = out@;
    let mut i: usize = 0;
    assert(before + calls_at(calls@, op_idx, 0) =~= before);
    while i < calls.len()
        invariant
            i <= calls@.len(),
            out@ == before + calls_at(calls@, op_idx, i as nat),
        decreases calls@.len() - i,
    {
        if calls[i].op_idx == op_idx {
            out.push(calls[i]);
            assert(out@ =~= before + calls_at(calls@, op_idx, (i + 1) as nat));
        }
        i += 1;
    }
}

/// Why a graph cannot grow: its references are used up, an occurrence leads back to itself, or a
/// frame could not count `added` more inherited calls.
pub open spec fn graph_spent(g: GraphModel, added: nat, e: BuildError) -> bool {
    match e {
        BuildError::TooManySources => g.nodes.len() >= u32::MAX,
        BuildError::CyclicSources => exists|x: u32|
            x < g.nodes.len() && #[trigger] has_cycle(g.children(), seq![x]),
        BuildError::TooManyInlineCalls => exists|s: int|
            0 <= s < g.nodes.len() && !frames_fit(
                (#[trigger] g.nodes[s]).call_frames,
                added,
            ),
        _ => false,
    }
}

/// Why what is below an occurrence cannot be copied under `added` inlined calls: there are too many
/// occurrences, it leads back to itself, or a frame below it could not count the calls.
pub open spec fn clone_failed(
    before: GraphModel,
    after: GraphModel,
    root: u32,
    added: nat,
    e: BuildError,
) -> bool {
    match e {
        BuildError::TooManySources => after.nodes.len() >= u32::MAX,
        BuildError::CyclicSources => has_cycle(before.children(), seq![root]),
        BuildError::TooManyInlineCalls => exists|s: u32| #[trigger]
            reaches(before.children(), seq![root], s) && !frames_fit(
                before.nodes[s as int].call_frames,
                added,
            ),
        _ => false,
    }
}

impl SourceGraph {
    /// The copy of an occurrence under a chain of inlined calls, over the copies of its children.
    ///
    /// Refuses a frame whose inherited calls could no longer be counted.
    pub fn source_occurrence_with_cloned_children_and_inline_calls(
        &self,
        source: u32,
        chain: &Vec<DebugSourceInlineCall>,
        copies: &Vec<Option<u32>>,
    ) -> (res: Result<SourceNode, BuildError>)
        requires
            self@.wf(),
            source < self@.nodes.len(),
            forall|j: int|
                0 <= j < self@.nodes[source as int].children.len() ==> (
                #[trigger] self@.nodes[source as int].children[j]) < copies@.len()
                    && copies@[self@.nodes[source as int].children[j] as int] is Some,
        ensures
            if frames_fit(self@.nodes[source as int].call_frames, chain@.len()) {
                res is Ok && res->Ok_0@ == decorated(
                    self@.nodes[source as int],
                    self@.boundary[source as int],
                    chain@,
                    copies@,
                )
            } else {
                res is Err && res->Err_0 == BuildError::TooManyInlineCalls
            },
    {
        let node = &self.nodes[source as usize];
        let ghost model = self@.nodes[source as int];
        assert(model == node@);
        let boundary: bool = self.boundary[source as usize];
        let mut children: Vec<u32> = Vec::new();
        let mut j: usize = 0;
        while j < node.children.len()
            invariant
                j <= node.children@.len(),
                model == node@,
                forall|j: int|
                    0 <= j < model.children.len() ==> (#[trigger] model.children[j]) < copies@.len()
                        && copies@[model.children[j] as int] is Some,
                children@.len() == j,
                forall|k: int|
                    0 <= k < j ==> #[trigger] children@[k] == copies@[model.children[k] as int]->0,
            decreases node.children@.len() - j,
        {
            assert(model.children[j as int] < copies@.len());
            match copies[node.children[j] as usize] {
                Some(c) => children.push(c),
                None => {
                    assert(false);
                },
            }
            j += 1;
        }
        let mut frames: Vec<DebugSourceCallFrame> = Vec::new();
        let added: usize = chain.len();
        let mut j: usize = 0;
        while j < node.call_frames.len()
            invariant
                j <= node.call_frames@.len(),
                model == node@,
                added == chain@.len(),
                model == self@.nodes[source as int],
                frames@.len() == j,
                forall|k: int|
                    0 <= k < j ==> (#[trigger] model.call_frames[k]).inherited_inline_calls + added
                        <= u32::MAX,
                forall|k: int|
                    0 <= k < j ==> #[trigger] frames@[k] == inherited_frames(
                        model.call_frames,
                        added as nat,
                    )[k],
            decreases node.call_frames@.len() - j,
        {
            let mut frame = node.call_frames[j];
            assert(frame == model.call_frames[j as int]);
            if added > (u32::MAX - frame.inherited_inline_calls) as usize {
                return Err(BuildError::TooManyInlineCalls);
            }
            frame.inherited_inline_calls = frame.inherited_inline_calls + added as u32;
            frames.push(frame);
            j += 1;
        }
        let mut inline_calls: Vec<DebugSourceInlineCall> = Vec::new();
        if node.op_start == node.op_end && boundary {
            inline_calls = copy_vec(&node.inline_calls);
            push_chain(&mut inline_calls, chain, node.op_start);
        } else {
            assert(range_ok(model));
            let count: u32 = node.op_end - node.op_start;
            let mut k: u32 = 0;
            while k < count
                invariant
                    k <= count == node.op_end - node.op_start,
                    inline_calls@ == spread(
                        node.inline_calls@,
                        chain@,
                        node.op_start,
                        k as nat,
                    ),
                decreases count - k,
            {
                push_calls_at(&mut inline_calls, &node.inline_calls, node.op_start + k);
                push_chain(&mut inline_calls, chain, node.op_start + k);
                k += 1;
            }
        }
        let done = SourceNode {
            exec_node: node.exec_node,
            children,
            op_start: node.op_start,
            op_end: node.op_end,
            asm_ops: copy_vec(&node.asm_ops),
            debug_vars: copy_vec(&node.debug_vars),
            inline_calls,
            call_frames: frames,
        };
        proof {
            let want = decorated(model, boundary, chain@, copies@);
            assert(done@.children =~= want.children);
            assert(done@.call_frames =~= want.call_frames);
        }
        Ok(done)
    }

    fn child_table(&self) -> (children: Vec<Vec<u32>>)
        ensures
            child_lists(children@) == self@.children(),
    {
        let mut children: Vec<Vec<u32>> = Vec::new();
        let mut i: usize = 0;
        while i < self.nodes.len()
            invariant
                i <= self.nodes@.len(),
                children@.len() == i,
                forall|k: int|
                    0 <= k < i ==> (#[trigger] children@[k])@ == self.nodes@[k].children@,
            decreases self.nodes@.len() - i,
        {
            children.push(copy_vec(&self.nodes[i].children));
            i += 1;
        }
        assert(child_lists(children@) =~= self@.children());
        children
    }

    /// Copies one occurrence under a chain of inlined calls, over the copies of its children.
    fn clone_one(
        &mut self,
        x: u32,
        chain: &Vec<DebugSourceInlineCall>,
        copies: &mut Vec<Option<u32>>,
    ) -> (res: Result<(), BuildError>)
        requires
            old(self)@.wf(),
            copies_of(old(self)@, old(copies)@.len(), chain@, old(copies)@),
            x < old(copies)@.len(),
            old(copies)@[x as int] is None,
            forall|j: int|
                0 <= j < old(self)@.nodes[x as int].children.len() ==> (
                #[trigger] old(self)@.nodes[x as int].children[j]) < old(copies)@.len() && old(
                    copies,
                )@[old(self)@.nodes[x as int].children[j] as int] is Some,
        ensures
            final(self)@.wf(),
            appended(old(self)@, final(self)@),
            match res {
                Ok(_) => {
                    &&& final(copies)@ == old(copies)@.update(
                        x as int,
                        Some(old(self)@.nodes.len() as u32),
                    )
                    &&& copies_of(final(self)@, old(copies)@.len(), chain@, final(copies)@)
                },
                Err(e) => graph_spent(final(self)@, chain@.len(), e) && match e {
                    BuildError::TooManySources => true,
                    BuildError::TooManyInlineCalls => !frames_fit(
                        old(self)@.nodes[x as int].call_frames,
                        chain@.len(),
                    ),
                    _ => false,
                },
            },
    {
        let ghost now = self@;
        let ghost n = copies@.len();
        let ghost copies_before = copies@;
        assert(now.nodes.take(now.nodes.len() as int) =~= now.nodes);
        assert(now.boundary.take(now.boundary.len() as int) =~= now.boundary);
        let boundary: bool = self.boundary[x as usize];
        let node = match self.source_occurrence_with_cloned_children_and_inline_calls(
            x,
            chain,
            copies,
        ) {
            Ok(node) => node,
            Err(e) => {
                return Err(e);
            },
        };
        let ghost model = node@;
        proof {
            assert forall|j: int| 0 <= j < model.children.len() implies (
            #[trigger] model.children[j]) < now.nodes.len() by {
                let c = now.nodes[x as int].children[j];
                assert(copies@[c as int] is Some);
            }
        }
        let none: Vec<u32> = Vec::new();
        let copied: u32 = match self.push(node, &none, boundary, false) {
            Ok(copied) => copied,
            Err(e) => {
                return Err(e);
            },
        };
        copies[x as usize] = Some(copied);
        proof {
            assert(self@.functions =~= now.functions);
            assert(self@.nodes.take(now.nodes.len() as int) =~= now.nodes);
            assert(self@.boundary.take(now.nodes.len() as int) =~= now.boundary);
            lemma_copy_added(now, self@, n, chain@, copies_before, x, copied);
        }
        Ok(())
    }

    /// Copies everything below an occurrence under a chain of inlined calls, children first, and
    /// returns the copies. The occurrences themselves stay as they are.
    ///
    /// Refuses an occurrence that leads back to itself.
    pub fn clone_below(&mut self, root: u32, chain: &Vec<DebugSourceInlineCall>) -> (res: Result<
        Vec<Option<u32>>,
        BuildError,
    >)
        requires
            old(self)@.wf(),
            root < old(self)@.nodes.len(),
        ensures
            final(self)@.wf(),
            appended(old(self)@, final(self)@),
            match res {
                Ok(copies) => {
                    let n = old(self)@.nodes.len();
                    &&& copies_of(final(self)@, n, chain@, copies@)
                    &&& forall|j: int|
                        0 <= j < old(self)@.nodes[root as int].children.len() ==> copies@[(
                        #[trigger] old(self)@.nodes[root as int].children[j]) as int] is Some
                    &&& forall|s: int|
                        0 <= s < n ==> ((#[trigger] copies@[s]) is Some <==> s != root && reaches(
                            old(self)@.children(),
                            seq![root],
                            s as u32,
                        ))
                },
                Err(e) => graph_spent(final(self)@, chain@.len(), e) && clone_failed(
                    old(self)@,
                    final(self)@,
                    root,
                    chain@.len(),
                    e,
                ),
            },
            res == Err::<Vec<Option<u32>>, BuildError>(BuildError::CyclicSources) <==> has_cycle(
                old(self)@.children(),
                seq![root],
            ),
    {
        let ghost before = self@;
        let n: usize = self.nodes.len();
        assert(self@.nodes.take(n as int) =~= before.nodes);
        assert(self@.boundary.take(n as int) =~= before.boundary);
        let children = self.child_table();
        let mut roots: Vec<u32> = Vec::new();
        roots.push(root);
        proof {
            assert(roots@ =~= seq![root]);
            assert forall|i: int, j: int|
                0 <= i < before.children().len() && 0 <= j < before.children()[i].len() implies (
            #[trigger] before.children()[i][j]) < before.children().len() by {
                assert(before.nodes[i].children[j] < before.nodes.len());
            }
        }
        let order = match post_order(&children, &roots) {
            Some(order) => order,
            None => {
                return Err(BuildError::CyclicSources);
            },
        };
        let ghost lists = before.children();
        proof {
            law_post_order_acyclic(lists, seq![root], order@);
        }
        let mut copies: Vec<Option<u32>> = Vec::new();
        let mut k: usize = 0;
        while k < n
            invariant
                k <= n,
                copies@.len() == k,
                forall|s: int| 0 <= s < k ==> #[trigger] copies@[s] is None,
            decreases n - k,
        {
            copies.push(None);
            k += 1;
        }
        let mut k: usize = 0;
        while k < order.len()
            invariant
                k <= order@.len(),
                n == before.nodes.len(),
                before.wf(),
                self@.wf(),
                appended(before, self@),
                lists == before.children(),
                root < n,
                is_post_order(lists, seq![root], order@),
                !has_cycle(lists, seq![root]),
                copies_of(self@, n as nat, chain@, copies@),
                forall|s: int|
                    0 <= s < n ==> ((#[trigger] copies@[s]) is Some <==> s != root && order@.take(
                        k as int,
                    ).contains(s as u32)),
                old(self)@ == before,
            decreases order@.len() - k,
        {
            let x: u32 = order[k];
            assert(order@[k as int] < lists.len());
            assert(self@.nodes.take(n as int)[x as int] == before.nodes[x as int]);
            if x != root {
                let ghost now = self@;
                let ghost copies_before = copies@;
                proof {
                    assert(reaches(lists, seq![root], order@[k as int]));
                    assert forall|j: int| 0 <= j < now.nodes[x as int].children.len() implies (
                    #[trigger] now.nodes[x as int].children[j]) < n
                        && copies@[now.nodes[x as int].children[j] as int] is Some by {
                        let c = now.nodes[x as int].children[j];
                        assert(lists[x as int][j] == c);
                        assert(order@.take(k as int).contains(lists[order@[k as int] as int][j]));
                        if c == root {
                            lemma_back_to_root(lists, root, x);
                        }
                        assert(c < n);
                        assert(c as int as u32 == c);
                    }
                    assert(copies@[x as int] is None) by {
                        let front = order@.take(k as int);
                        if front.contains(x) {
                            let q = choose|q: int| 0 <= q < front.len() && front[q] == x;
                            assert(order@[q] == order@[k as int]);
                        }
                        assert(x as int as u32 == x);
                    }
                }
                if let Err(e) = self.clone_one(x, chain, &mut copies) {
                    proof {
                        lemma_appended_trans(before, now, self@);
                        assert(reaches(lists, seq![root], x));
                    }
                    return Err(e);
                }
                proof {
                    lemma_appended_trans(before, now, self@);
                    assert forall|s: int| 0 <= s < n implies ((#[trigger] copies@[s]) is Some <==> s
                        != root && order@.take(k + 1).contains(s as u32)) by {
                        assert(copies_before[s] is Some <==> s != root && order@.take(
                            k as int,
                        ).contains(s as u32));
                        lemma_take_contains(order@, k as int, s as u32);
                    }
                }
            } else {
                proof {
                    assert forall|s: int| 0 <= s < n implies ((#[trigger] copies@[s]) is Some <==> s
                        != root && order@.take(k + 1).contains(s as u32)) by {
                        lemma_take_contains(order@, k as int, s as u32);
                    }
                }
            }
            k += 1;
        }
        proof {
            assert(order@.take(k as int) =~= order@);
            assert forall|s: int| 0 <= s < n implies ((#[trigger] copies@[s]) is Some <==> s != root
                && reaches(lists, seq![root], s as u32)) by {
                crate::graph::law_post_order_complete(lists, seq![root], order@, s as u32);
            }
            assert forall|j: int| 0 <= j < before.nodes[root as int].children.len() implies copies@[(
            #[trigger] before.nodes[root as int].children[j]) as int] is Some by {
                let c = before.nodes[root as int].children[j];
                assert(lists[root as int][j] == c);
                assert(seq![root][0] == root);
                assert(order@.contains(seq![root][0]));
                let p = choose|p: int| 0 <= p < order@.len() && order@[p] == root;
                assert(order@.take(p).contains(lists[order@[p] as int][j]));
                let front = order@.take(p);
                let q = choose|q: int| 0 <= q < front.len() && front[q] == c;
                assert(order@[q] == c);
                if c == root {
                    assert(order@[p] == order@[q]);
                }
                assert(c as int as u32 == c);
                assert(order@.contains(c));
            }
        }
        Ok(copies)
    }
}

pub proof fn lemma_appended_trans(a: GraphModel, b: GraphModel, c: GraphModel)
    requires
        appended(a, b),
        appended(b, c),
        a.boundary.len() == a.nodes.len(),
        b.boundary.len() == b.nodes.len(),
        c.boundary.len() == c.nodes.len(),
    ensures
        appended(a, c),
{
    let n = a.nodes.len() as int;
    assert forall|i: int| 0 <= i < n implies c.nodes[i] == a.nodes[i] by {
        assert(b.nodes.take(n)[i] == a.nodes[i]);
        assert(c.nodes.take(b.nodes.len() as int)[i] == b.nodes[i]);
    }
    assert forall|i: int| 0 <= i < n implies c.boundary[i] == a.boundary[i] by {
        assert(b.boundary.take(n)[i] == a.boundary[i]);
        assert(c.boundary.take(b.boundary.len() as int)[i] == b.boundary[i]);
    }
    assert(c.nodes.take(n) =~= a.nodes);
    assert(c.boundary.take(n) =~= a.boundary);
}

proof fn lemma_take_contains(order: Seq<u32>, k: int, x: u32)
    requires
        0 <= k < order.len(),
    ensures
        order.take(k + 1).contains(x) <==> order.take(k).contains(x) || order[k] == x,
{
    let front = order.take(k);
    let next = order.take(k + 1);
    if front.contains(x) {
        let q = choose|q: int| 0 <= q < front.len() && front[q] == x;
        assert(next[q] == x);
    }
    if order[k] == x {
        assert(next[k] == x);
    }
    if next.contains(x) {
        let q = choose|q: int| 0 <= q < next.len() && next[q] == x;
        if q < k {
            assert(front[q] == x);
        }
    }
}

/// A node below `root` that leads to `root` closes a cycle.
proof fn lemma_back_to_root(children: Seq<Seq<u32>>, root: u32, x: u32)
    requires
        reaches(children, seq![root], x),
        children[x as int].contains(root),
        root < children.len(),
    ensures
        has_cycle(children, seq![root]),
{
    let path = choose|path: Seq<u32>|
        #[trigger] is_path(children, path) && seq![root].contains(path[0]) && path.last() == x;
    assert(path[0] == root);
    let longer = path.push(root);
    assert(is_path(children, longer)) by {
        assert forall|i: int| 0 <= i < longer.len() - 1 implies children[#[trigger] longer[i] as int].contains(
            longer[i + 1],
        ) by {
            if i < path.len() - 1 {
                assert(children[path[i] as int].contains(path[i + 1]));
            }
        }
    }
    assert(longer[0] == root && longer.last() == root);
    assert(leads_to(children, root, root));
    let start = seq![root];
    assert(is_path(children, start));
    assert(start[0] == root && start.last() == root);
    assert(seq![root].contains(root)) by {
        assert(seq![root][0] == root);
    }
    assert(reaches(children, seq![root], root));
}

/// One more copy.
proof fn lemma_copy_added(
    before: GraphModel,
    after: GraphModel,
    n: nat,
    chain: Seq<DebugSourceInlineCall>,
    copies: Seq<Option<u32>>,
    x: u32,
    c: u32,
)
    requires
        before.wf(),
        copies_of(before, n, chain, copies),
        x < n,
        copies[x as int] is None,
        c == before.nodes.len(),
        after.nodes == before.nodes.push(
            decorated(before.nodes[x as int], before.boundary[x as int], chain, copies),
        ),
        after.boundary == before.boundary.push(before.boundary[x as int]),
        forall|j: int|
            0 <= j < before.nodes[x as int].children.len() ==> (
            #[trigger] before.nodes[x as int].children[j]) < n
                && copies[before.nodes[x as int].children[j] as int] is Some,
    ensures
        copies_of(after, n, chain, copies.update(x as int, Some(c))),
{
    let now = copies.update(x as int, Some(c));
    assert forall|s: int| 0 <= s < n && (#[trigger] now[s]) is Some implies {
        let d = now[s]->0 as int;
        &&& n <= d < after.nodes.len()
        &&& after.nodes[d] == decorated(after.nodes[s], after.boundary[s], chain, now)
        &&& after.boundary[d] == after.boundary[s]
        &&& forall|j: int|
            0 <= j < after.nodes[s].children.len() ==> (#[trigger] after.nodes[s].children[j]) < n
                && now[after.nodes[s].children[j] as int] is Some
    } by {
        let d = now[s]->0 as int;
        assert(after.nodes[s] == before.nodes[s]);
        assert(after.boundary[s] == before.boundary[s]);
        if s != x {
            assert(copies[s] is Some);
            assert(after.nodes[d] == before.nodes[d]);
        }
        assert forall|j: int| 0 <= j < after.nodes[s].children.len() implies (
        #[trigger] after.nodes[s].children[j]) < n && now[after.nodes[s].children[j] as int] is Some by {
            assert(before.nodes[s].children[j] < n);
        }
        assert(decorated(after.nodes[s], after.boundary[s], chain, now).children =~= decorated(
            before.nodes[s],
            before.boundary[s],
            chain,
            copies,
        ).children) by {
            assert forall|j: int| 0 <= j < after.nodes[s].children.len() implies now[
            after.nodes[s].children[j] as int]->0 == copies[before.nodes[s].children[j] as int]->0 by {
                assert(before.nodes[s].children[j] < n);
            }
        }
    }
}

// LAWS OF INLINED CALLS
// ================================================================================================

proof fn lemma_calls_of_both(
    a: Seq<DebugSourceInlineCall>,
    b: Seq<DebugSourceInlineCall>,
    op_idx: u32,
    k: nat,
)
    requires
        k <= b.len(),
    ensures
        calls_at(a + b, op_idx, a.len() + k) == calls_at(a, op_idx, a.len()) + calls_at(
            b,
            op_idx,
            k,
        ),
    decreases k,
{
    if k > 0 {
        lemma_calls_of_both(a, b, op_idx, (k - 1) as nat);
        assert((a + b)[a.len() + k - 1] == b[k - 1]);
        let before = calls_at(a, op_idx, a.len());
        let earlier = calls_at(b, op_idx, (k - 1) as nat);
        assert(before + earlier.push(b[k - 1]) =~= (before + earlier).push(b[k - 1]));
    } else {
        lemma_calls_front(a + b, a, op_idx, a.len());
        assert(calls_at(a, op_idx, a.len()) + calls_at(b, op_idx, 0) =~= calls_at(
            a,
            op_idx,
            a.len(),
        ));
    }
}

proof fn lemma_calls_front(
    a: Seq<DebugSourceInlineCall>,
    b: Seq<DebugSourceInlineCall>,
    op_idx: u32,
    k: nat,
)
    requires
        k <= a.len(),
        k <= b.len(),
        forall|i: int| 0 <= i < k ==> a[i] == b[i],
    ensures
        calls_at(a, op_idx, k) == calls_at(b, op_idx, k),
    decreases k,
{
    if k > 0 {
        lemma_calls_front(a, b, op_idx, (k - 1) as nat);
    }
}

/// Calls that all stand at one operation.
proof fn lemma_calls_at_one(calls: Seq<DebugSourceInlineCall>, at: u32, op_idx: u32, k: nat)
    requires
        k <= calls.len(),
        forall|i: int| 0 <= i < calls.len() ==> (#[trigger] calls[i]).op_idx == at,
    ensures
        calls_at(calls, op_idx, k) == if op_idx == at {
            calls.take(k as int)
        } else {
            Seq::empty()
        },
    decreases k,
{
    if k > 0 {
        lemma_calls_at_one(calls, at, op_idx, (k - 1) as nat);
        if op_idx == at {
            assert(calls.take(k as int) =~= calls.take(k - 1).push(calls[k - 1]));
        }
    } else {
        assert(calls.take(0) =~= Seq::empty());
    }
}

proof fn lemma_calls_at_stand(calls: Seq<DebugSourceInlineCall>, op_idx: u32, k: nat)
    requires
        k <= calls.len(),
    ensures
        forall|i: int|
            0 <= i < calls_at(calls, op_idx, k).len() ==> (#[trigger] calls_at(
                calls,
                op_idx,
                k,
            )[i]).op_idx == op_idx,
    decreases k,
{
    if k > 0 {
        lemma_calls_at_stand(calls, op_idx, (k - 1) as nat);
        let before = calls_at(calls, op_idx, (k - 1) as nat);
        let all = calls_at(calls, op_idx, k);
        assert forall|i: int| 0 <= i < all.len() implies (#[trigger] all[i]).op_idx == op_idx by {
            if i < before.len() {
                assert(all[i] == before[i]);
            }
        }
    }
}

proof fn lemma_spread_calls(
    calls: Seq<DebugSourceInlineCall>,
    chain: Seq<DebugSourceInlineCall>,
    start: u32,
    op_idx: u32,
    k: nat,
)
    requires
        start + k <= u32::MAX,
    ensures
        ({
            let all = spread(calls, chain, start, k);
            calls_at(all, op_idx, all.len()) == if start <= op_idx < start + k {
                calls_at(calls, op_idx, calls.len()) + chain_at(chain, op_idx)
            } else {
                Seq::empty()
            }
        }),
    decreases k,
{
    if k > 0 {
        lemma_spread_calls(calls, chain, start, op_idx, (k - 1) as nat);
        let at = (start + k - 1) as u32;
        let before = spread(calls, chain, start, (k - 1) as nat);
        let own = calls_at(calls, at, calls.len());
        let more = chain_at(chain, at);
        lemma_calls_at_stand(calls, at, calls.len());
        lemma_calls_at_one(own, at, op_idx, own.len());
        lemma_calls_at_one(more, at, op_idx, more.len());
        assert(own.take(own.len() as int) =~= own);
        assert(more.take(more.len() as int) =~= more);
        lemma_calls_of_both(before + own, more, op_idx, more.len());
        lemma_calls_of_both(before, own, op_idx, own.len());
        let all = spread(calls, chain, start, k);
        assert((before + own + more).len() == (before + own).len() + more.len());
        if op_idx == at {
            assert(Seq::<DebugSourceInlineCall>::empty() + own + more =~= own + more);
        } else {
            let old = calls_at(before, op_idx, before.len());
            assert(old + Seq::<DebugSourceInlineCall>::empty()
                + Seq::<DebugSourceInlineCall>::empty() =~= old);
        }
    }
}

/// A copy under inlined calls has them at every operation of its range, behind the calls that the
/// operation was under before: the calls from the inside to the outside.
pub proof fn law_every_operation_is_under_the_chain(
    node: SourceModel,
    boundary: bool,
    chain: Seq<DebugSourceInlineCall>,
    op_idx: u32,
)
    requires
        node.op_start <= op_idx < node.op_end,
    ensures
        ({
            let calls = decorated_calls(node, boundary, chain);
            calls_at(calls, op_idx, calls.len()) == calls_at(
                node.inline_calls,
                op_idx,
                node.inline_calls.len(),
            ) + chain_at(chain, op_idx)
        }),
{
    lemma_spread_calls(
        node.inline_calls,
        chain,
        node.op_start,
        op_idx,
        (node.op_end - node.op_start) as nat,
    );
}

proof fn lemma_spread_twice(
    calls: Seq<DebugSourceInlineCall>,
    inner: Seq<DebugSourceInlineCall>,
    outer: Seq<DebugSourceInlineCall>,
    start: u32,
    k: nat,
    n: nat,
)
    requires
        k <= n,
        start + n <= u32::MAX,
    ensures
        spread(spread(calls, inner, start, n), outer, start, k) == spread(
            calls,
            inner + outer,
            start,
            k,
        ),
    decreases k,
{
    if k > 0 {
        lemma_spread_twice(calls, inner, outer, start, (k - 1) as nat, n);
        let at = (start + k - 1) as u32;
        lemma_spread_calls(calls, inner, start, at, n);
        let own = calls_at(calls, at, calls.len());
        assert(chain_at(inner + outer, at) =~= chain_at(inner, at) + chain_at(outer, at));
        let before = spread(calls, inner + outer, start, (k - 1) as nat);
        assert(before + (own + chain_at(inner, at)) + chain_at(outer, at) =~= before + own
            + chain_at(inner + outer, at));
    }
}

/// A copy of a copy, first under some inlined calls and then under others, reads like one copy
/// under all of them, the first inside of the others.
pub proof fn law_chains_add_up(
    node: SourceModel,
    boundary: bool,
    inner: Seq<DebugSourceInlineCall>,
    outer: Seq<DebugSourceInlineCall>,
    copies: Seq<Option<u32>>,
)
    requires
        node.op_start <= node.op_end,
        frames_fit(node.call_frames, inner.len() + outer.len()),
    ensures
        ({
            let once = decorated(node, boundary, inner, copies);
            &&& decorated_calls(once, boundary, outer) == decorated_calls(
                node,
                boundary,
                inner + outer,
            )
            &&& inherited_frames(once.call_frames, outer.len()) == inherited_frames(
                node.call_frames,
                (inner + outer).len(),
            )
            &&& once.asm_ops == node.asm_ops
            &&& once.debug_vars == node.debug_vars
            &&& once.exec_node == node.exec_node
        }),
{
    let n = (node.op_end - node.op_start) as nat;
    let once = decorated(node, boundary, inner, copies);
    lemma_spread_twice(node.inline_calls, inner, outer, node.op_start, n, n);
    assert(chain_at(inner + outer, node.op_start) =~= chain_at(inner, node.op_start) + chain_at(
        outer,
        node.op_start,
    ));
    assert(node.inline_calls + chain_at(inner, node.op_start) + chain_at(outer, node.op_start)
        =~= node.inline_calls + chain_at(inner + outer, node.op_start));
    assert forall|i: int| 0 <= i < node.call_frames.len() implies (inherited_frames(
        once.call_frames,
        outer.len(),
    )[i] == #[trigger] inherited_frames(node.call_frames, (inner + outer).len())[i]) by {
        assert(node.call_frames[i].inherited_inline_calls + (inner.len() + outer.len())
            <= u32::MAX);
    }
    assert(inherited_frames(once.call_frames, outer.len()) =~= inherited_frames(
        node.call_frames,
        (inner + outer).len(),
    ));
}

/// A copy under inlined calls is the same occurrence but for the calls: it stands for the same code
/// over as many children, covers the same operations, and says the same of them; each of its call
/// frames inherits the calls besides those that it inherited before.
pub proof fn law_copies_say_the_same(
    node: SourceModel,
    boundary: bool,
    chain: Seq<DebugSourceInlineCall>,
    copies: Seq<Option<u32>>,
    i: int,
)
    requires
        frames_fit(node.call_frames, chain.len()),
    ensures
        ({
            let copy = decorated(node, boundary, chain, copies);
            &&& copy.exec_node == node.exec_node
            &&& copy.op_start == node.op_start
            &&& copy.op_end == node.op_end
            &&& copy.asm_ops == node.asm_ops
            &&& copy.debug_vars == node.debug_vars
            &&& copy.children.len() == node.children.len()
            &&& 0 <= i < node.children.len() ==> copies[node.children[i] as int] is Some
                ==> copies[node.children[i] as int] == Some(copy.children[i])
            &&& copy.call_frames.len() == node.call_frames.len()
            &&& 0 <= i < node.call_frames.len() ==> copy.call_frames[i].inherited_inline_calls
                == node.call_frames[i].inherited_inline_calls + chain.len()
                && copy.call_frames[i].function_idx == node.call_frames[i].function_idx
                && copy.call_frames[i].op_start == node.call_frames[i].op_start
                && copy.call_frames[i].op_end == node.call_frames[i].op_end
            &&& boundary && node.op_start == node.op_end ==> copy.inline_calls == node.inline_calls
                + chain_at(chain, node.op_start)
        }),
{
    if 0 <= i < node.call_frames.len() {
        assert(node.call_frames[i].inherited_inline_calls + chain.len() <= u32::MAX);
    }
}

} // verus!
