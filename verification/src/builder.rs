//! Building a forest: execution nodes are shared by key, source occurrences are kept apart.

use vstd::prelude::*;

use crate::boundary::{boundaries_resolved, boundary_spent, is_boundary_of};
use crate::finalizer::largest_end;
use crate::hasher::{merge_in_domain, merge_in_domain_spec};
use crate::node::{
    CALL_DOMAIN, DYNCALL_DOMAIN, DYN_DOMAIN, LOOP_DOMAIN, SPLIT_DOMAIN, SYSCALL_DOMAIN,
};
use crate::batch::raw_of;
use crate::debug_info::{
    copy_vec, DebugSourceAsmOp, DebugSourceInlineCall, DebugSourceVar, SourceModel, SourceNode,
    TablesModel,
};
use crate::felt::Word;
use crate::forest::AdviceMap;
use crate::op_index::raw_operations;

use crate::pending::{
    bare_draft, key_for_pending_record, pending_models, record_key, DraftModel, MastNodeRef,
    MastNodeUse, PendingKind, PendingMastNode, PendingMastNodeDraft, PendingMastNodeKind,
    PendingModel, SourceNodeRef,
};
use crate::registry::{import_models, no_tables, tables_grown, DebugTablesModel, Registry};
use crate::source_graph::{
    appended, clone_failed, copies_of, decorated, range_ok, BuildError, FunctionInfo, GraphModel,
    SourceGraph,
};

verus! {

/// An occurrence that was copied under a chain of inlined calls.
pub struct DecoratedSource {
    pub source: u32,
    pub chain: Vec<(u32, u32)>,
    pub copy: u32,
}

/// The contents of a [`DecoratedSource`].
pub ghost struct DecoratedModel {
    pub source: u32,
    pub chain: Seq<(u32, u32)>,
    pub copy: u32,
}

impl DecoratedSource {
    pub open spec fn view(&self) -> DecoratedModel {
        DecoratedModel { source: self.source, chain: self.chain@, copy: self.copy }
    }
}

pub open spec fn decorated_models(items: Seq<DecoratedSource>) -> Seq<DecoratedModel> {
    Seq::new(items.len(), |i: int| items[i]@)
}

/// A forest under construction.
pub struct MastForestBuilder {
    pub nodes: Vec<PendingMastNode>,
    pub graph: SourceGraph,
    pub procedure_root_refs: Vec<MastNodeRef>,
    /// Copies under inlined calls, for identical uses to share.
    pub decorated: Vec<DecoratedSource>,
    /// What the builder holds besides the graph.
    pub registry: Registry,
}

/// The contents of a [`MastForestBuilder`].
pub ghost struct BuilderModel {
    pub nodes: Seq<PendingModel>,
    pub graph: GraphModel,
    pub roots: Seq<MastNodeRef>,
    pub decorated: Seq<DecoratedModel>,
    pub tables: DebugTablesModel,
    pub imports: Seq<Option<TablesModel>>,
}

impl BuilderModel {
    /// Nodes are well formed, refer to nodes and are known by different keys; every node has an
    /// occurrence.
    pub open spec fn wf(self) -> bool {
        &&& self.graph.wf()
        &&& self.nodes.len() <= u32::MAX
        &&& self.graph.history.len() == self.nodes.len()
        &&& forall|r: int| 0 <= r < self.nodes.len() ==> node_ok(#[trigger] self.nodes[r], self.nodes.len())
        &&& forall|r: int, q: int|
            0 <= r < q < self.nodes.len() ==> (#[trigger] self.nodes[r]).key
                != (#[trigger] self.nodes[q]).key
        &&& forall|r: int|
            0 <= r < self.graph.history.len() ==> (#[trigger] self.graph.history[r]).len() > 0
        &&& forall|i: int|
            0 <= i < self.roots.len() ==> (#[trigger] self.roots[i]).0 < self.nodes.len()
        &&& forall|i: int|
            0 <= i < self.decorated.len() ==> (#[trigger] self.decorated[i]).copy
                < self.graph.nodes.len()
    }

    /// A use speaks of a node and of one of its occurrences.
    pub open spec fn has_use(self, node_use: MastNodeUse) -> bool {
        &&& node_use.node_ref.0 < self.nodes.len()
        &&& node_use.source_ref.0 < self.graph.nodes.len()
    }
}

/// A pending node whose children are among `n` nodes.
pub open spec fn node_ok(node: PendingModel, n: nat) -> bool {
    &&& node.digest.wf()
    &&& node.kind.wf()
    &&& node.child_refs.len() == node.kind.arity()
    &&& forall|i: int| 0 <= i < node.child_refs.len() ==> (#[trigger] node.child_refs[i]).0 < n
}

/// Why a forest cannot be built further: its references are used up, or the boundaries of a node
/// cannot be resolved.
pub open spec fn spent(b: BuilderModel, e: BuildError) -> bool {
    match e {
        BuildError::TooManyNodes => b.nodes.len() >= u32::MAX,
        _ => boundary_spent(b.graph, e),
    }
}

/// What building keeps: nodes keep their refs and keys, and what they execute once it is known;
/// occurrences of known code stay as they are; roots, selectable occurrences and entries of tables
/// are only added.
pub open spec fn extends(before: BuilderModel, after: BuilderModel) -> bool {
    &&& before.nodes.len() <= after.nodes.len()
    &&& forall|r: int|
        0 <= r < before.nodes.len() ==> after.nodes[r].key == (#[trigger] before.nodes[r]).key && (
        before.nodes[r].kind is External || after.nodes[r] == before.nodes[r])
    &&& before.graph.nodes.len() <= after.graph.nodes.len()
    &&& forall|s: int|
        0 <= s < before.graph.nodes.len() ==> after.graph.nodes[s].exec_node == (
        #[trigger] before.graph.nodes[s]).exec_node && (is_settled(before, s)
            ==> after.graph.nodes[s] == before.graph.nodes[s] && is_settled(after, s))
    &&& forall|r: int|
        0 <= r < before.graph.history.len() ==> is_prefix(
            #[trigger] before.graph.history[r],
            after.graph.history[r],
        )
    &&& is_prefix(before.graph.roots, after.graph.roots)
    &&& is_prefix(before.roots, after.roots)
    &&& before.graph.functions.len() <= after.graph.functions.len()
    &&& entries_kept(before, after)
}

/// Functions stay as they are, but for their occurrences.
pub open spec fn functions_kept(before: Seq<FunctionInfo>, after: Seq<FunctionInfo>) -> bool {
    &&& before.len() <= after.len()
    &&& forall|i: int|
        0 <= i < before.len() ==> (#[trigger] after[i]) == (FunctionInfo {
            source_node: after[i].source_node,
            ..before[i]
        })
}

/// Entries of tables stay where they are, and so does what is known of where the entries of
/// libraries went.
#[verifier::opaque]
pub open spec fn entries_kept(before: BuilderModel, after: BuilderModel) -> bool {
    &&& tables_grown(before.tables, after.tables)
    &&& functions_kept(before.graph.functions, after.graph.functions)
    &&& before.imports.len() <= after.imports.len()
    &&& forall|i: int|
        0 <= i < before.imports.len() && (#[trigger] before.imports[i]) is Some ==> after.imports[i]
            == before.imports[i]
}

/// What keeps the tables keeps their entries.
pub proof fn lemma_entries_kept(before: BuilderModel, after: BuilderModel)
    requires
        after.tables == before.tables,
        after.imports == before.imports,
        functions_kept(before.graph.functions, after.graph.functions),
    ensures
        entries_kept(before, after),
{
    reveal(entries_kept);
}

/// More entries of tables extend a builder.
pub proof fn lemma_tables_extend(before: BuilderModel, after: BuilderModel)
    requires
        after == (BuilderModel { tables: after.tables, ..before }),
        tables_grown(before.tables, after.tables),
    ensures
        extends(before, after),
        before.wf() ==> after.wf(),
{
    reveal(entries_kept);
    lemma_extends_refl(before);
}

proof fn lemma_entries_kept_trans(a: BuilderModel, b: BuilderModel, c: BuilderModel)
    requires
        entries_kept(a, b),
        entries_kept(b, c),
    ensures
        entries_kept(a, c),
{
    reveal(entries_kept);
    crate::registry::lemma_tables_grown_trans(a.tables, b.tables, c.tables);
    assert forall|i: int| 0 <= i < a.graph.functions.len() implies (#[trigger] c.graph.functions[i])
        == (FunctionInfo { source_node: c.graph.functions[i].source_node, ..a.graph.functions[i] }) by {
        assert(b.graph.functions[i].name_idx == a.graph.functions[i].name_idx);
    }
    assert forall|i: int| 0 <= i < a.imports.len() && (#[trigger] a.imports[i]) is Some implies
        c.imports[i] == a.imports[i] by {
        assert(b.imports[i] == a.imports[i]);
    }
}

pub open spec fn is_prefix<T>(a: Seq<T>, b: Seq<T>) -> bool {
    a.len() <= b.len() && forall|i: int| 0 <= i < a.len() ==> #[trigger] a[i] == b[i]
}

/// An occurrence of code that is known.
pub open spec fn is_settled(b: BuilderModel, s: int) -> bool {
    !b.graph.boundary[s] && !(b.nodes[b.graph.nodes[s].exec_node as int].kind is External)
}

/// Building in steps keeps what each step keeps.
pub proof fn lemma_extends_trans(a: BuilderModel, b: BuilderModel, c: BuilderModel)
    requires
        extends(a, b),
        extends(b, c),
        a.graph.history.len() == a.nodes.len(),
        b.graph.history.len() == b.nodes.len(),
    ensures
        extends(a, c),
{
    assert forall|r: int| 0 <= r < a.nodes.len() implies c.nodes[r].key == (
    #[trigger] a.nodes[r]).key && (a.nodes[r].kind is External || c.nodes[r] == a.nodes[r]) by {
        assert(b.nodes[r].key == a.nodes[r].key);
        assert(c.nodes[r].key == b.nodes[r].key);
    }
    assert forall|s: int| 0 <= s < a.graph.nodes.len() implies c.graph.nodes[s].exec_node == (
    #[trigger] a.graph.nodes[s]).exec_node && (is_settled(a, s) ==> c.graph.nodes[s]
        == a.graph.nodes[s] && is_settled(c, s)) by {
        assert(b.graph.nodes[s].exec_node == a.graph.nodes[s].exec_node);
        assert(c.graph.nodes[s].exec_node == b.graph.nodes[s].exec_node);
    }
    assert forall|r: int| 0 <= r < a.graph.history.len() implies is_prefix(
        #[trigger] a.graph.history[r],
        c.graph.history[r],
    ) by {
        let x = a.graph.history[r];
        let y = b.graph.history[r];
        let z = c.graph.history[r];
        assert(is_prefix(x, y));
        assert(is_prefix(y, z));
        assert forall|i: int| 0 <= i < x.len() implies #[trigger] x[i] == z[i] by {
            assert(x[i] == y[i]);
            assert(y[i] == z[i]);
        }
    }
    assert forall|i: int| 0 <= i < a.graph.roots.len() implies #[trigger] a.graph.roots[i]
        == c.graph.roots[i] by {
        assert(a.graph.roots[i] == b.graph.roots[i]);
        assert(b.graph.roots[i] == c.graph.roots[i]);
    }
    assert forall|i: int| 0 <= i < a.roots.len() implies #[trigger] a.roots[i] == c.roots[i] by {
        assert(a.roots[i] == b.roots[i]);
        assert(b.roots[i] == c.roots[i]);
    }
    lemma_entries_kept_trans(a, b, c);
}

pub proof fn lemma_extends_refl(b: BuilderModel)
    ensures
        extends(b, b),
{
    lemma_entries_kept(b, b);
}

// INTERNING
// ================================================================================================

/// The first of the first `k` nodes that is known by `key`.
pub open spec fn find_key(nodes: Seq<PendingModel>, key: Word, k: nat) -> Option<nat>
    decreases k,
{
    if k == 0 {
        None
    } else {
        match find_key(nodes, key, (k - 1) as nat) {
            Some(i) => Some(i),
            None => if nodes[k - 1].key == key {
                Some((k - 1) as nat)
            } else {
                None
            },
        }
    }
}

/// The node of a draft.
pub open spec fn record_of(draft: DraftModel, key: Word) -> PendingModel {
    PendingModel { key, digest: draft.digest, kind: draft.kind, child_refs: draft.child_refs }
}

/// A placeholder gives way to a node that executes something.
pub open spec fn replaces(existing: PendingModel, draft: DraftModel) -> bool {
    existing.kind is External && !(draft.kind is External)
}

/// The node that a draft is interned as.
pub open spec fn interned_ref(nodes: Seq<PendingModel>, key: Word) -> nat {
    match find_key(nodes, key, nodes.len()) {
        Some(i) => i,
        None => nodes.len(),
    }
}

/// The nodes after a draft was interned: a node with the key of the draft is reused, a placeholder
/// with that key is replaced, and otherwise the draft becomes a node.
pub open spec fn interned_nodes(nodes: Seq<PendingModel>, draft: DraftModel, key: Word) -> Seq<
    PendingModel,
> {
    match find_key(nodes, key, nodes.len()) {
        Some(i) => if replaces(nodes[i as int], draft) {
            nodes.update(i as int, record_of(draft, key))
        } else {
            nodes
        },
        None => nodes.push(record_of(draft, key)),
    }
}

/// The key of a draft.
pub open spec fn draft_key(nodes: Seq<PendingModel>, draft: DraftModel) -> Word {
    record_key(nodes, draft.digest, draft.kind, draft.child_refs)
}

/// The occurrences with new children for those of one execution node.
pub open spec fn with_children(graph: GraphModel, r: int, children: Seq<u32>) -> GraphModel {
    GraphModel {
        nodes: Seq::new(
            graph.nodes.len(),
            |s: int|
                if crate::source_graph::is_listed(graph.history[r], s) {
                    SourceModel { children, ..graph.nodes[s] }
                } else {
                    graph.nodes[s]
                },
        ),
        ..graph
    }
}

/// The graph after a draft was interned and before its occurrence is recorded.
pub open spec fn interned_graph(
    b: BuilderModel,
    draft: DraftModel,
    key: Word,
    source_children: Seq<u32>,
) -> GraphModel {
    match find_key(b.nodes, key, b.nodes.len()) {
        Some(i) => if replaces(b.nodes[i as int], draft) {
            with_children(b.graph, i as int, source_children)
        } else {
            b.graph
        },
        None => GraphModel { history: b.graph.history.push(Seq::empty()), ..b.graph },
    }
}

pub proof fn lemma_find_key(nodes: Seq<PendingModel>, key: Word, k: nat)
    requires
        k <= nodes.len(),
    ensures
        match find_key(nodes, key, k) {
            Some(i) => i < k && nodes[i as int].key == key,
            None => forall|i: int| 0 <= i < k ==> (#[trigger] nodes[i]).key != key,
        },
    decreases k,
{
    if k > 0 {
        lemma_find_key(nodes, key, (k - 1) as nat);
    }
}

proof fn lemma_find_key_found(nodes: Seq<PendingModel>, key: Word, k: nat, n: nat)
    requires
        k <= n,
        find_key(nodes, key, k) is Some,
    ensures
        find_key(nodes, key, n) == find_key(nodes, key, k),
    decreases n - k,
{
    if k < n {
        lemma_find_key_found(nodes, key, k, (n - 1) as nat);
    }
}

/// A draft over existing nodes.
pub open spec fn draft_ok(b: BuilderModel, draft: DraftModel) -> bool {
    &&& draft.digest.wf()
    &&& draft.kind.wf()
    &&& draft.child_refs.len() == draft.kind.arity()
    &&& forall|i: int|
        0 <= i < draft.child_refs.len() ==> (#[trigger] draft.child_refs[i]).0 < b.nodes.len()
}

/// References to existing occurrences.
pub open spec fn sources_ok(b: BuilderModel, sources: Seq<u32>) -> bool {
    forall|i: int| 0 <= i < sources.len() ==> (#[trigger] sources[i]) < b.graph.nodes.len()
}

/// The occurrence of a draft over a range of operations.
pub open spec fn occurrence_of(
    exec_node: u32,
    children: Seq<u32>,
    draft: DraftModel,
    op_start: u32,
    op_end: u32,
) -> SourceModel {
    SourceModel {
        exec_node,
        children,
        op_start,
        op_end,
        asm_ops: draft.asm_ops,
        debug_vars: draft.debug_vars,
        inline_calls: draft.inline_calls,
        call_frames: draft.call_frames,
    }
}

/// A builder in which nothing was recorded: no nodes, occurrences, functions, procedures or roots.
pub open spec fn is_fresh(builder: MastForestBuilder) -> bool {
    let b = builder@;
    &&& b.nodes.len() == 0
    &&& b.graph.nodes.len() == 0
    &&& b.graph.boundary.len() == 0
    &&& b.graph.roots.len() == 0
    &&& b.graph.functions.len() == 0
    &&& b.graph.history.len() == 0
    &&& b.roots.len() == 0
    &&& b.decorated.len() == 0
    &&& b.imports.len() == 0
    &&& builder.registry.procedures@.len() == 0
    &&& builder.registry.inline_functions@.len() == 0
}

impl MastForestBuilder {
    pub open spec fn view(&self) -> BuilderModel {
        BuilderModel {
            nodes: pending_models(self.nodes@),
            graph: self.graph@,
            roots: self.procedure_root_refs@,
            decorated: decorated_models(self.decorated@),
            tables: self.registry.tables@,
            imports: import_models(self.registry.imports@),
        }
    }

    /// A builder that holds nothing, whose forest starts with the given advice map.
    pub fn new(advice_map: AdviceMap) -> (builder: MastForestBuilder)
        requires
            advice_map.wf(),
        ensures
            builder@.wf(),
            is_fresh(builder),
            builder@.tables == no_tables(),
            builder.registry.advice_map@ == advice_map@,
            builder.registry.wf(),
    {
        MastForestBuilder {
            nodes: Vec::new(),
            graph: SourceGraph::new(),
            procedure_root_refs: Vec::new(),
            decorated: Vec::new(),
            registry: Registry::new(advice_map),
        }
    }

    /// The node that is known by `key`.
    pub fn find_node_ref_by_key(&self, key: Word) -> (node_ref: Option<MastNodeRef>)
        requires
            self@.nodes.len() <= u32::MAX,
        ensures
            match find_key(self@.nodes, key, self@.nodes.len()) {
                Some(i) => node_ref == Some(MastNodeRef(i as u32)) && i < self@.nodes.len(),
                None => node_ref is None,
            },
    {
        let mut i: usize = 0;
        while i < self.nodes.len()
            invariant
                i <= self.nodes@.len() <= u32::MAX,
                find_key(self@.nodes, key, i as nat) is None,
            decreases self.nodes@.len() - i,
        {
            assert(self@.nodes[i as int] == self.nodes@[i as int]@);
            if self.nodes[i].key == key {
                proof {
                    lemma_find_key_found(self@.nodes, key, (i + 1) as nat, self@.nodes.len());
                }
                return Some(MastNodeRef(i as u32));
            }
            i += 1;
        }
        None
    }

    /// The key of a draft.
    pub fn dedup_key_for_pending_data(&self, draft: &PendingMastNodeDraft) -> (key: Word)
        requires
            draft_ok(self@, draft@),
        ensures
            key == draft_key(self@.nodes, draft@),
    {
        key_for_pending_record(&self.nodes, draft.digest, &draft.kind, &draft.child_refs)
    }

    fn node_of(draft: &PendingMastNodeDraft, key: Word) -> (node: PendingMastNode)
        ensures
            node@ == record_of(draft@, key),
    {
        PendingMastNode {
            key,
            digest: draft.digest,
            kind: draft.kind.copy(),
            child_refs: copy_vec(&draft.child_refs),
        }
    }

    fn insert_pending_node_record_ref(&mut self, key: Word, draft: &PendingMastNodeDraft) -> (res:
        Result<MastNodeRef, BuildError>)
        requires
            old(self)@.graph.wf(),
        ensures
            if old(self)@.nodes.len() >= u32::MAX {
                res == Err::<MastNodeRef, BuildError>(BuildError::TooManyNodes) && final(self)@
                    == old(self)@
            } else {
                &&& res == Ok::<MastNodeRef, BuildError>(
                    MastNodeRef(old(self)@.nodes.len() as u32),
                )
                &&& final(self)@ == (BuilderModel {
                    nodes: old(self)@.nodes.push(record_of(draft@, key)),
                    graph: GraphModel {
                        history: old(self)@.graph.history.push(Seq::empty()),
                        ..old(self)@.graph
                    },
                    ..old(self)@
                })
                &&& final(self)@.graph.wf()
            },
            final(self).registry == old(self).registry,
    {
        if self.nodes.len() >= u32::MAX as usize {
            return Err(BuildError::TooManyNodes);
        }
        let node_ref = MastNodeRef(self.nodes.len() as u32);
        let ghost before = self@;
        let node = MastForestBuilder::node_of(draft, key);
        let ghost model = node@;
        self.nodes.push(node);
        self.graph.add_exec_node();
        assert(self@.nodes =~= before.nodes.push(model));
        Ok(node_ref)
    }

    /// Replaces a placeholder. Its occurrences keep their refs and get the shape of the node.
    fn replace_pending_node_record_ref(
        &mut self,
        node_ref: MastNodeRef,
        key: Word,
        draft: &PendingMastNodeDraft,
        source_children: &Vec<u32>,
    )
        requires
            old(self)@.graph.wf(),
            old(self)@.graph.history.len() == old(self)@.nodes.len(),
            node_ref.0 < old(self)@.nodes.len(),
            sources_ok(old(self)@, source_children@),
        ensures
            final(self)@ == (BuilderModel {
                nodes: old(self)@.nodes.update(node_ref.0 as int, record_of(draft@, key)),
                graph: with_children(old(self)@.graph, node_ref.0 as int, source_children@),
                ..old(self)@
            }),
            final(self)@.graph.wf(),
            final(self).registry == old(self).registry,
    {
        let ghost before = self@;
        let r: usize = node_ref.0 as usize;
        let list = copy_vec(&self.graph.history[r]);
        assert(list@ == before.graph.history[r as int]);
        let mut i: usize = 0;
        assert(self@.graph.nodes =~= with_children(before.graph, r as int, source_children@).nodes
            || list@.len() > 0);
        while i < list.len()
            invariant
                i <= list@.len(),
                r < before.graph.history.len(),
                before.graph.wf(),
                list@ == before.graph.history[r as int],
                self.nodes == old(self).nodes,
                self.procedure_root_refs == old(self).procedure_root_refs,
                self.decorated == old(self).decorated,
                self.registry == old(self).registry,
                self@.graph == (GraphModel { nodes: self@.graph.nodes, ..before.graph }),
                self@.graph.nodes.len() == before.graph.nodes.len(),
                forall|s: int|
                    0 <= s < before.graph.nodes.len() ==> #[trigger] self@.graph.nodes[s] == if crate::source_graph::is_listed(
                    list@.take(i as int), s) {
                        SourceModel { children: source_children@, ..before.graph.nodes[s] }
                    } else {
                        before.graph.nodes[s]
                    },
            decreases list@.len() - i,
        {
            assert(before.graph.history[r as int][i as int] < before.graph.nodes.len());
            let at: usize = list[i] as usize;
            let ghost now = self@.graph;
            let mut node = self.graph.nodes[at].copy();
            assert(node@ == now.nodes[at as int]);
            node.children = copy_vec(source_children);
            let ghost model = node@;
            self.graph.nodes[at] = node;
            proof {
                assert(self@.graph.nodes =~= now.nodes.update(at as int, model));
                let a = list@.take(i as int);
                let b = list@.take(i + 1);
                assert forall|s: int| 0 <= s < before.graph.nodes.len() implies #[trigger] self@.graph.nodes[s]
                    == if crate::source_graph::is_listed(b, s) {
                    SourceModel { children: source_children@, ..before.graph.nodes[s] }
                } else {
                    before.graph.nodes[s]
                } by {
                    assert(now.nodes[s] == if crate::source_graph::is_listed(a, s) {
                        SourceModel { children: source_children@, ..before.graph.nodes[s] }
                    } else {
                        before.graph.nodes[s]
                    });
                    lemma_listed_step(list@, i as int, s);
                }
            }
            i += 1;
        }
        assert(list@.take(i as int) =~= list@);
        let ghost mid = self@;
        let node = MastForestBuilder::node_of(draft, key);
        let ghost model = node@;
        self.nodes[r] = node;
        proof {
            let want = with_children(before.graph, r as int, source_children@);
            assert(self@.nodes =~= before.nodes.update(r as int, model));
            assert(self@.graph.nodes =~= want.nodes);
            assert(self@.graph.wf()) by {
                let g = self@.graph;
                assert forall|s: int| 0 <= s < g.nodes.len() implies (#[trigger] g.nodes[s]).exec_node
                    < g.history.len() && range_ok(g.nodes[s]) by {
                    assert(before.graph.nodes[s].exec_node < before.graph.history.len());
                }
                assert forall|s: int, j: int|
                    0 <= s < g.nodes.len() && 0 <= j < g.nodes[s].children.len() implies (
                #[trigger] g.nodes[s].children[j]) < g.nodes.len() by {
                    if crate::source_graph::is_listed(list@, s) {
                        assert(source_children@[j] < before.graph.nodes.len());
                    } else {
                        assert(before.graph.nodes[s].children[j] < before.graph.nodes.len());
                    }
                }
                assert forall|q: int, j: int|
                    0 <= q < g.history.len() && 0 <= j < g.history[q].len() implies (
                #[trigger] g.history[q][j]) < g.nodes.len() && g.nodes[g.history[q][j] as int].exec_node
                    == q by {
                    assert(before.graph.history[q][j] < before.graph.nodes.len());
                }
            }
        }
    }

    /// Interns a draft: reuses the node with its key, replaces a placeholder with its key, or adds
    /// a node.
    fn intern(&mut self, draft: &PendingMastNodeDraft, source_children: &Vec<u32>) -> (res: Result<
        MastNodeRef,
        BuildError,
    >)
        requires
            old(self)@.wf(),
            draft_ok(old(self)@, draft@),
            sources_ok(old(self)@, source_children@),
        ensures
            ({
                let b = old(self)@;
                let key = draft_key(b.nodes, draft@);
                if find_key(b.nodes, key, b.nodes.len()) is None && b.nodes.len() >= u32::MAX {
                    res == Err::<MastNodeRef, BuildError>(BuildError::TooManyNodes) && final(self)@
                        == b
                } else {
                    &&& res == Ok::<MastNodeRef, BuildError>(
                        MastNodeRef(interned_ref(b.nodes, key) as u32),
                    )
                    &&& interned_ref(b.nodes, key) < u32::MAX
                    &&& final(self)@ == (BuilderModel {
                        nodes: interned_nodes(b.nodes, draft@, key),
                        graph: interned_graph(b, draft@, key, source_children@),
                        ..b
                    })
                    &&& final(self)@.graph.wf()
                }
            }),
            final(self).registry == old(self).registry,
    {
        let key = self.dedup_key_for_pending_data(draft);
        proof {
            lemma_find_key(self@.nodes, key, self@.nodes.len());
        }
        match self.find_node_ref_by_key(key) {
            Some(node_ref) => {
                assert(self@.nodes[node_ref.0 as int] == self.nodes@[node_ref.0 as int]@);
                if self.nodes[node_ref.0 as usize].kind.is_external() && !draft.kind.is_external() {
                    self.replace_pending_node_record_ref(node_ref, key, draft, source_children);
                }
                Ok(node_ref)
            },
            None => self.insert_pending_node_record_ref(key, draft),
        }
    }
}

// OCCURRENCES
// ================================================================================================

pub open spec fn asm_op_indices(rows: Seq<DebugSourceAsmOp>) -> Seq<u32> {
    Seq::new(rows.len(), |i: int| rows[i].op_idx)
}

pub open spec fn debug_var_indices(rows: Seq<DebugSourceVar>) -> Seq<u32> {
    Seq::new(rows.len(), |i: int| rows[i].op_idx)
}

/// How many operations the occurrence of a draft covers: those of its block, or as many as its
/// rows speak of.
pub open spec fn draft_op_count(draft: DraftModel) -> nat {
    match draft.kind {
        PendingKind::BasicBlock(batches) => raw_of(batches).len(),
        _ => {
            let a = largest_end(asm_op_indices(draft.asm_ops), draft.asm_ops.len());
            let b = largest_end(debug_var_indices(draft.debug_vars), draft.debug_vars.len());
            if a >= b {
                a
            } else {
                b
            }
        },
    }
}

/// A node with the row of one assembly operation and no variables has one operation.
pub proof fn lemma_control_count(draft: DraftModel, asm_op: AssemblyOp)
    requires
        !(draft.kind is BasicBlock),
        draft.asm_ops == seq![first_row(asm_op)],
        draft.debug_vars.len() == 0,
    ensures
        draft_op_count(draft) == 1,
{
    let indices = asm_op_indices(draft.asm_ops);
    assert(indices[0] == 0);
    assert(largest_end(indices, 0) == 0);
    assert(largest_end(indices, 1) == 1);
}

/// The occurrence of a draft was recorded for execution node `exec`.
///
/// A placeholder for code that is there takes the latest occurrence of that code. Otherwise there
/// is a new occurrence, which resolves the boundaries of the node unless it is one.
pub open spec fn occurrence_recorded(
    before: GraphModel,
    after: GraphModel,
    exec_is_external: bool,
    exec: u32,
    children: Seq<u32>,
    draft: DraftModel,
    op_start: u32,
    op_end: u32,
    source: u32,
) -> bool {
    if draft.kind is External && !exec_is_external {
        &&& source == before.history[exec as int].last()
        &&& after == GraphModel {
            functions: GraphModel::functions_at(before.functions, draft.functions, source),
            ..before
        }
    } else {
        let pushed = before.pushed(
            occurrence_of(exec, children, draft, op_start, op_end),
            draft.functions,
            draft.kind is External,
            true,
        );
        &&& source == before.nodes.len()
        &&& if draft.kind is External {
            after == pushed
        } else {
            boundaries_resolved(pushed, after, exec, source as int)
        }
    }
}

/// Some occurrence stands for an execution node while its code is not there.
pub open spec fn has_boundary(g: GraphModel, exec: u32) -> bool {
    exists|s: int| 0 <= s < g.nodes.len() && #[trigger] is_boundary_of(g, s, exec)
}

/// Why an occurrence of a draft cannot be recorded: there are too many, or one that stands for the
/// node cannot be resolved.
pub open spec fn occurrence_failed(
    g: GraphModel,
    after: GraphModel,
    is_placeholder: bool,
    exec: u32,
    draft: DraftModel,
    e: BuildError,
) -> bool {
    if draft.kind is External {
        is_placeholder && e == BuildError::TooManySources && g.nodes.len() >= u32::MAX
    } else {
        ||| e == BuildError::TooManySources && g.nodes.len() >= u32::MAX
        ||| has_boundary(g, exec) && boundary_spent(after, e)
    }
}

/// Why a draft cannot be interned and recorded, as the builder before tells: its references are used
/// up. Only where an occurrence stands for the node, resolving it can fail otherwise.
pub open spec fn record_failed(
    b: BuilderModel,
    after: BuilderModel,
    draft: DraftModel,
    e: BuildError,
) -> bool {
    let key = draft_key(b.nodes, draft);
    let r = interned_ref(b.nodes, key);
    if r >= b.nodes.len() && b.nodes.len() >= u32::MAX {
        e == BuildError::TooManyNodes && after == b
    } else {
        &&& after.nodes == interned_nodes(b.nodes, draft, key)
        &&& occurrence_failed(
            b.graph,
            after.graph,
            r >= b.nodes.len() || b.nodes[r as int].kind is External,
            r as u32,
            draft,
            e,
        )
    }
}

/// Nodes keep their places, and what they execute once it is known.
pub open spec fn code_kept(before: Seq<PendingModel>, after: Seq<PendingModel>) -> bool {
    &&& before.len() <= after.len()
    &&& forall|r: int|
        0 <= r < before.len() ==> (#[trigger] before[r]).kind is External || after[r] == before[r]
}

/// Interning a draft keeps known code.
pub proof fn lemma_interned_code_kept(nodes: Seq<PendingModel>, draft: DraftModel)
    ensures
        code_kept(nodes, interned_nodes(nodes, draft, draft_key(nodes, draft))),
{
    lemma_find_key(nodes, draft_key(nodes, draft), nodes.len());
}

/// A draft was interned and its occurrence recorded over a range.
pub open spec fn recorded_over(
    b: BuilderModel,
    after: BuilderModel,
    draft: DraftModel,
    source_children: Seq<u32>,
    op_start: u32,
    op_end: u32,
    node_use: MastNodeUse,
) -> bool {
    let key = draft_key(b.nodes, draft);
    let r = interned_ref(b.nodes, key);
    &&& node_use.node_ref.0 == r
    &&& after.nodes == interned_nodes(b.nodes, draft, key)
    &&& after.roots == b.roots
    &&& after.decorated == b.decorated
    &&& after.tables == b.tables
    &&& after.imports == b.imports
    &&& occurrence_recorded(
        interned_graph(b, draft, key, source_children),
        after.graph,
        after.nodes[r as int].kind is External,
        r as u32,
        source_children,
        draft,
        op_start,
        op_end,
        node_use.source_ref.0,
    )
}

/// A draft was interned and its occurrence recorded over all its operations.
pub open spec fn recorded(
    b: BuilderModel,
    after: BuilderModel,
    draft: DraftModel,
    source_children: Seq<u32>,
    node_use: MastNodeUse,
) -> bool {
    recorded_over(
        b,
        after,
        draft,
        source_children,
        0,
        draft_op_count(draft) as u32,
        node_use,
    )
}

/// No occurrence stands for code that is not there.
pub open spec fn is_quiet(b: BuilderModel) -> bool {
    forall|s: int| 0 <= s < b.graph.nodes.len() ==> !#[trigger] b.graph.boundary[s]
}

/// There is room for `n` more nodes and occurrences, and no occurrence is to be resolved.
pub open spec fn is_roomy(b: BuilderModel, n: nat) -> bool {
    &&& is_quiet(b)
    &&& b.nodes.len() + n <= u32::MAX
    &&& b.graph.nodes.len() + n <= u32::MAX
}

/// Recording a draft adds at most one node, and one occurrence, where none is to be resolved.
pub proof fn lemma_recorded_quiet(
    b: BuilderModel,
    after: BuilderModel,
    draft: DraftModel,
    source_children: Seq<u32>,
    op_start: u32,
    op_end: u32,
    node_use: MastNodeUse,
)
    requires
        b.wf(),
        recorded_over(b, after, draft, source_children, op_start, op_end, node_use),
        !(draft.kind is External),
        is_quiet(b),
    ensures
        is_quiet(after),
        after.nodes.len() <= b.nodes.len() + 1,
        after.graph.nodes.len() == b.graph.nodes.len() + 1,
{
    let key = draft_key(b.nodes, draft);
    let r = interned_ref(b.nodes, key) as u32;
    lemma_find_key(b.nodes, key, b.nodes.len());
    let g = interned_graph(b, draft, key, source_children);
    assert(g.boundary == b.graph.boundary);
    assert(g.nodes.len() == b.graph.nodes.len());
    let pushed = g.pushed(
        occurrence_of(r, source_children, draft, op_start, op_end),
        draft.functions,
        false,
        true,
    );
    assert forall|s: int| 0 <= s < pushed.nodes.len() implies !pushed.boundary[s]
        && !#[trigger] is_boundary_of(pushed, s, r) by {
        if s < b.graph.nodes.len() {
            assert(!b.graph.boundary[s]);
        }
    }
}

/// With room, recording a draft does not fail.
pub proof fn lemma_roomy_records(
    b: BuilderModel,
    after: BuilderModel,
    draft: DraftModel,
    e: BuildError,
)
    requires
        is_roomy(b, 1),
        !(draft.kind is External),
    ensures
        !record_failed(b, after, draft, e),
{
    let r = interned_ref(b.nodes, draft_key(b.nodes, draft)) as u32;
    if has_boundary(b.graph, r) {
        let s = choose|s: int|
            0 <= s < b.graph.nodes.len() && #[trigger] is_boundary_of(b.graph, s, r);
        assert(!b.graph.boundary[s]);
    }
}

/// Code that is recorded has an occurrence of its own, with the rows of its draft, which stays.
pub proof fn lemma_recorded_occurrence(
    b: BuilderModel,
    after: BuilderModel,
    draft: DraftModel,
    source_children: Seq<u32>,
    op_start: u32,
    op_end: u32,
    node_use: MastNodeUse,
)
    requires
        b.wf(),
        after.wf(),
        recorded_over(b, after, draft, source_children, op_start, op_end, node_use),
        !(draft.kind is External),
    ensures
        node_use.source_ref.0 < after.graph.nodes.len(),
        is_settled(after, node_use.source_ref.0 as int),
        after.graph.nodes[node_use.source_ref.0 as int] == occurrence_of(
            node_use.node_ref.0,
            source_children,
            draft,
            op_start,
            op_end,
        ),
{
    let key = draft_key(b.nodes, draft);
    let r = interned_ref(b.nodes, key) as int;
    let g1 = interned_graph(b, draft, key, source_children);
    let pushed = g1.pushed(
        occurrence_of(r as u32, source_children, draft, op_start, op_end),
        draft.functions,
        false,
        true,
    );
    let s = node_use.source_ref.0 as int;
    assert(g1.boundary.len() == g1.nodes.len());
    assert(!is_boundary_of(pushed, s, r as u32));
    assert(after.graph.nodes[s] == pushed.nodes[s]);
    lemma_find_key(b.nodes, key, b.nodes.len());
}

/// Nothing but nodes, occurrences and the functions at them changed: roots, selectable copies,
/// tables and imports are as they were.
pub open spec fn frame_kept(b: BuilderModel, after: BuilderModel) -> bool {
    &&& after.roots == b.roots
    &&& after.graph.roots == b.graph.roots
    &&& after.decorated == b.decorated
    &&& after.tables == b.tables
    &&& after.imports == b.imports
}

/// Recording adds no node but that of the draft.
pub proof fn lemma_recorded_adds(
    b: BuilderModel,
    after: BuilderModel,
    draft: DraftModel,
    source_children: Seq<u32>,
    op_start: u32,
    op_end: u32,
    node_use: MastNodeUse,
)
    requires
        recorded_over(b, after, draft, source_children, op_start, op_end, node_use),
    ensures
        after.nodes.len() == b.nodes.len() || after.nodes.len() == b.nodes.len() + 1
            && node_use.node_ref.0 == b.nodes.len(),
{
    lemma_find_key(b.nodes, draft_key(b.nodes, draft), b.nodes.len());
}

/// Recording marks no roots.
pub proof fn lemma_recorded_frame(
    b: BuilderModel,
    after: BuilderModel,
    draft: DraftModel,
    source_children: Seq<u32>,
    op_start: u32,
    op_end: u32,
    node_use: MastNodeUse,
)
    requires
        recorded_over(b, after, draft, source_children, op_start, op_end, node_use),
    ensures
        frame_kept(b, after),
{
}

/// What recording a draft keeps, and what it gives back.
proof fn lemma_recorded_extends(
    b: BuilderModel,
    after: BuilderModel,
    draft: DraftModel,
    source_children: Seq<u32>,
    op_start: u32,
    op_end: u32,
    node_use: MastNodeUse,
)
    requires
        b.wf(),
        draft_ok(b, draft),
        sources_ok(b, source_children),
        recorded_over(b, after, draft, source_children, op_start, op_end, node_use),
        after.graph.wf(),
        interned_ref(b.nodes, draft_key(b.nodes, draft)) < u32::MAX,
    ensures
        after.wf(),
        extends(b, after),
        after.has_use(node_use),
        after.nodes[node_use.node_ref.0 as int].key == draft_key(b.nodes, draft),
        after.graph.nodes[node_use.source_ref.0 as int].exec_node == node_use.node_ref.0,
        !(draft.kind is External) ==> is_settled(after, node_use.source_ref.0 as int)
            && node_use.source_ref.0 == b.graph.nodes.len()
            && after.graph.nodes[node_use.source_ref.0 as int] == occurrence_of(
            node_use.node_ref.0,
            source_children,
            draft,
            op_start,
            op_end,
        ),
{
    let key = draft_key(b.nodes, draft);
    let r = interned_ref(b.nodes, key) as int;
    lemma_find_key(b.nodes, key, b.nodes.len());
    let g1 = interned_graph(b, draft, key, source_children);
    let g2 = after.graph;
    assert(g1.history.len() == after.nodes.len());
    assert forall|q: int| 0 <= q < after.nodes.len() implies node_ok(
        #[trigger] after.nodes[q],
        after.nodes.len(),
    ) by {
        if q < b.nodes.len() {
            assert(node_ok(b.nodes[q], b.nodes.len()));
        }
    }
    assert forall|p: int, q: int| 0 <= p < q < after.nodes.len() implies (
    #[trigger] after.nodes[p]).key != (#[trigger] after.nodes[q]).key by {
        if q < b.nodes.len() {
            assert(b.nodes[p].key != b.nodes[q].key);
        } else {
            assert(b.nodes[p].key != key);
        }
    }
    assert forall|q: int| 0 <= q < g2.history.len() implies (#[trigger] g2.history[q]).len() > 0 by {
        if q < b.nodes.len() {
            assert(b.graph.history[q].len() > 0);
        }
    }
    assert forall|q: int| 0 <= q < b.graph.history.len() implies is_prefix(
        #[trigger] b.graph.history[q],
        g2.history[q],
    ) by {
        assert(g1.history[q] == b.graph.history[q]);
    }
    assert forall|s: int| 0 <= s < b.graph.nodes.len() implies g2.nodes[s].exec_node == (
    #[trigger] b.graph.nodes[s]).exec_node && (is_settled(b, s) ==> g2.nodes[s]
        == b.graph.nodes[s] && is_settled(after, s)) by {
        assert(b.graph.nodes[s].exec_node < b.graph.history.len());
        assert(g1.nodes[s].exec_node == b.graph.nodes[s].exec_node);
        let exec = b.graph.nodes[s].exec_node as int;
        if is_settled(b, s) {
            assert(g1.nodes[s] == b.graph.nodes[s]) by {
                if find_key(b.nodes, key, b.nodes.len()) is Some && replaces(b.nodes[r], draft) {
                    if crate::source_graph::is_listed(b.graph.history[r], s) {
                        let j = choose|j: int|
                            0 <= j < b.graph.history[r].len() && #[trigger] b.graph.history[r][j]
                                == s;
                        assert(b.graph.nodes[b.graph.history[r][j] as int].exec_node == r);
                    }
                }
            }
        }
        if draft.kind is External {
        } else {
            let pushed = g1.pushed(
                occurrence_of(r as u32, source_children, draft, op_start, op_end),
                draft.functions,
                false,
                true,
            );
            assert(pushed.nodes[s] == g1.nodes[s]);
            assert(pushed.boundary[s] == g1.boundary[s]);
            assert(is_boundary_of(pushed, s, r as u32) || !is_boundary_of(pushed, s, r as u32));
            assert(g2.nodes[s].exec_node == pushed.nodes[s].exec_node);
        }
    }
    if !(draft.kind is External) {
        let pushed = g1.pushed(
            occurrence_of(r as u32, source_children, draft, op_start, op_end),
            draft.functions,
            false,
            true,
        );
        let s = node_use.source_ref.0 as int;
        assert(!is_boundary_of(pushed, s, r as u32));
        assert(g2.nodes[s] == pushed.nodes[s]);
    } else if after.nodes[r].kind is External {
        let s = node_use.source_ref.0 as int;
        assert(g2.nodes[s].exec_node == r);
    } else {
        let h = g1.history[r];
        assert(h.len() > 0) by {
            if r < b.nodes.len() {
                assert(b.graph.history[r].len() > 0);
            }
        }
        assert(g2.history[r][h.len() - 1] < g2.nodes.len());
    }
    assert(functions_kept(b.graph.functions, g2.functions));
    lemma_entries_kept(b, after);
}

/// An assembly operation that a control node belongs to.
#[derive(Clone, Copy, PartialEq, Eq, Structural, Debug)]
pub struct AssemblyOp {
    pub location_idx: Option<u32>,
    pub context_name_idx: u32,
    pub op_name_idx: u32,
    pub num_cycles: u8,
}

/// The row of an assembly operation at the first operation.
pub open spec fn first_row(asm_op: AssemblyOp) -> DebugSourceAsmOp {
    DebugSourceAsmOp {
        op_idx: 0,
        location_idx: asm_op.location_idx,
        context_name_idx: asm_op.context_name_idx,
        op_name_idx: asm_op.op_name_idx,
        num_cycles: asm_op.num_cycles,
    }
}

/// A draft with the row of an assembly operation and inlined calls.
pub open spec fn control_draft(
    kind: PendingKind,
    digest: Word,
    child_refs: Seq<MastNodeRef>,
    asm_op: AssemblyOp,
    inline_calls: Seq<DebugSourceInlineCall>,
) -> DraftModel {
    DraftModel {
        asm_ops: seq![first_row(asm_op)],
        inline_calls,
        ..bare_draft(kind, digest, child_refs)
    }
}

/// The digest of a node.
pub open spec fn digest_of_ref(b: BuilderModel, node_ref: MastNodeRef) -> Word {
    b.nodes[node_ref.0 as int].digest
}

/// The first of the first `k` copies of an occurrence under a chain.
pub open spec fn find_decorated(
    items: Seq<DecoratedModel>,
    source: u32,
    chain: Seq<(u32, u32)>,
    k: nat,
) -> Option<u32>
    decreases k,
{
    if k == 0 {
        None
    } else {
        match find_decorated(items, source, chain, (k - 1) as nat) {
            Some(c) => Some(c),
            None => if items[k - 1].source == source && items[k - 1].chain == chain {
                Some(items[k - 1].copy)
            } else {
                None
            },
        }
    }
}

proof fn lemma_find_decorated(
    items: Seq<DecoratedModel>,
    source: u32,
    chain: Seq<(u32, u32)>,
    k: nat,
    n: nat,
)
    requires
        k <= n,
        find_decorated(items, source, chain, k) is Some,
    ensures
        find_decorated(items, source, chain, n) == find_decorated(items, source, chain, k),
    decreases n - k,
{
    if k < n {
        lemma_find_decorated(items, source, chain, k, (n - 1) as nat);
    }
}

proof fn lemma_found_decorated(
    items: Seq<DecoratedModel>,
    source: u32,
    chain: Seq<(u32, u32)>,
    k: nat,
)
    requires
        k <= items.len(),
        find_decorated(items, source, chain, k) is Some,
    ensures
        exists|i: int|
            0 <= i < k && (#[trigger] items[i]).copy == find_decorated(
                items,
                source,
                chain,
                k,
            )->0,
    decreases k,
{
    if find_decorated(items, source, chain, (k - 1) as nat) is Some {
        lemma_found_decorated(items, source, chain, (k - 1) as nat);
    } else {
        assert(items[k - 1].copy == find_decorated(items, source, chain, k)->0);
    }
}

/// What identifies a chain of inlined calls: who was called from where.
pub open spec fn chain_key(chain: Seq<DebugSourceInlineCall>) -> Seq<(u32, u32)> {
    Seq::new(chain.len(), |i: int| (chain[i].callee_idx, chain[i].loc_idx))
}

impl MastForestBuilder {
    /// How many operations the occurrence of a draft covers.
    pub fn source_op_range_for_draft(draft: &PendingMastNodeDraft) -> (res: Result<
        u32,
        BuildError,
    >)
        requires
            draft@.kind.wf(),
        ensures
            res == if draft_op_count(draft@) > u32::MAX {
                Err::<u32, BuildError>(BuildError::TooManyOperations)
            } else {
                Ok(draft_op_count(draft@) as u32)
            },
    {
        let count: u64 = match &draft.kind {
            PendingMastNodeKind::BasicBlock { op_batches } => raw_operations(op_batches).len() as u64,
            _ => {
                let mut a: u64 = 0;
                let mut i: usize = 0;
                while i < draft.asm_ops.len()
                    invariant
                        i <= draft.asm_ops@.len(),
                        a == largest_end(asm_op_indices(draft.asm_ops@), i as nat),
                        a <= 0x1_0000_0000,
                    decreases draft.asm_ops@.len() - i,
                {
                    let end: u64 = draft.asm_ops[i].op_idx as u64 + 1;
                    if end > a {
                        a = end;
                    }
                    i += 1;
                }
                let mut b: u64 = 0;
                let mut i: usize = 0;
                while i < draft.debug_vars.len()
                    invariant
                        i <= draft.debug_vars@.len(),
                        b == largest_end(debug_var_indices(draft.debug_vars@), i as nat),
                        b <= 0x1_0000_0000,
                    decreases draft.debug_vars@.len() - i,
                {
                    let end: u64 = draft.debug_vars[i].op_idx as u64 + 1;
                    if end > b {
                        b = end;
                    }
                    i += 1;
                }
                if a >= b {
                    a
                } else {
                    b
                }
            },
        };
        if count > u32::MAX as u64 {
            Err(BuildError::TooManyOperations)
        } else {
            Ok(count as u32)
        }
    }

    /// Records the occurrence of a draft over a range of operations.
    fn record_source_occurrence_with_range(
        &mut self,
        exec: MastNodeRef,
        children: &Vec<u32>,
        draft: &PendingMastNodeDraft,
        op_start: u32,
        op_end: u32,
    ) -> (res: Result<u32, BuildError>)
        requires
            old(self)@.graph.wf(),
            old(self)@.graph.history.len() == old(self)@.nodes.len(),
            exec.0 < old(self)@.nodes.len(),
            op_start <= op_end,
            sources_ok(old(self)@, children@),
            draft@.kind is External && !(old(self)@.nodes[exec.0 as int].kind is External)
                ==> old(self)@.graph.history[exec.0 as int].len() > 0,
        ensures
            final(self).registry == old(self).registry,
            final(self)@.nodes == old(self)@.nodes,
            final(self)@.roots == old(self)@.roots,
            final(self)@.decorated == old(self)@.decorated,
            final(self)@.graph.wf(),
            res is Ok ==> occurrence_recorded(
                old(self)@.graph,
                final(self)@.graph,
                old(self)@.nodes[exec.0 as int].kind is External,
                exec.0,
                children@,
                draft@,
                op_start,
                op_end,
                res->Ok_0,
            ),
            res matches Err(e) ==> boundary_spent(final(self)@.graph, e) && occurrence_failed(
                old(self)@.graph,
                final(self)@.graph,
                old(self)@.nodes[exec.0 as int].kind is External,
                exec.0,
                draft@,
                e,
            ),
    {
        let ghost before = self@.graph;
        assert(self@.nodes[exec.0 as int] == self.nodes@[exec.0 as int]@);
        let is_boundary: bool = draft.kind.is_external();
        if is_boundary && !self.nodes[exec.0 as usize].kind.is_external() {
            match self.graph.latest(exec.0) {
                Some(source) => {
                    let ghost h = self@.graph.history[exec.0 as int];
                    assert(self@.graph.history[exec.0 as int][h.len() - 1] < self@.graph.nodes.len());
                    self.graph.move_functions(&draft.functions, source);
                    return Ok(source);
                },
                None => {
                    assert(false);
                },
            }
        }
        let node = SourceNode {
            exec_node: exec.0,
            children: copy_vec(children),
            op_start,
            op_end,
            asm_ops: copy_vec(&draft.asm_ops),
            debug_vars: copy_vec(&draft.debug_vars),
            inline_calls: copy_vec(&draft.inline_calls),
            call_frames: copy_vec(&draft.call_frames),
        };
        let source: u32 = match self.graph.push(node, &draft.functions, is_boundary, true) {
            Ok(source) => source,
            Err(e) => {
                return Err(e);
            },
        };
        if !is_boundary {
            let ghost pushed = self@.graph;
            if let Err(e) = self.graph.remap_external_boundary_occurrences(exec.0, source) {
                proof {
                    let s = choose|s: int|
                        0 <= s < pushed.nodes.len() && #[trigger] is_boundary_of(
                            pushed,
                            s,
                            exec.0,
                        );
                    assert(s < before.nodes.len());
                    assert(pushed.nodes[s] == before.nodes[s]);
                    assert(is_boundary_of(before, s, exec.0));
                }
                return Err(e);
            }
        }
        Ok(source)
    }

    /// Interns a draft and records its occurrence over a range of operations.
    pub fn intern_pending_node_over_range(
        &mut self,
        draft: &PendingMastNodeDraft,
        source_children: &Vec<u32>,
        op_start: u32,
        op_end: u32,
    ) -> (res: Result<MastNodeUse, BuildError>)
        requires
            old(self)@.wf(),
            draft_ok(old(self)@, draft@),
            sources_ok(old(self)@, source_children@),
            op_start <= op_end,
        ensures
            final(self).registry == old(self).registry,
            match res {
                Ok(node_use) => {
                    &&& recorded_over(
                        old(self)@,
                        final(self)@,
                        draft@,
                        source_children@,
                        op_start,
                        op_end,
                        node_use,
                    )
                    &&& final(self)@.wf()
                    &&& extends(old(self)@, final(self)@)
                    &&& final(self)@.has_use(node_use)
                    &&& final(self)@.nodes[node_use.node_ref.0 as int].key == draft_key(
                        old(self)@.nodes,
                        draft@,
                    )
                    &&& final(self)@.graph.nodes[node_use.source_ref.0 as int].exec_node
                        == node_use.node_ref.0
                    &&& !(draft@.kind is External) ==> is_settled(
                        final(self)@,
                        node_use.source_ref.0 as int,
                    ) && final(self)@.graph.nodes[node_use.source_ref.0 as int] == occurrence_of(
                        node_use.node_ref.0,
                        source_children@,
                        draft@,
                        op_start,
                        op_end,
                    )
                },
                Err(e) => spent(final(self)@, e) && record_failed(
                    old(self)@,
                    final(self)@,
                    draft@,
                    e,
                ),
            },
    {
        let ghost before = self@;
        let ghost key = draft_key(before.nodes, draft@);
        proof {
            lemma_find_key(before.nodes, key, before.nodes.len());
        }
        let node_ref = match self.intern(draft, source_children) {
            Ok(node_ref) => node_ref,
            Err(e) => {
                return Err(e);
            },
        };
        proof {
            let r = node_ref.0 as int;
            if draft@.kind is External && !(self@.nodes[r].kind is External) {
                assert(r < before.nodes.len());
                assert(before.graph.history[r].len() > 0);
            }
        }
        let source: u32 = match self.record_source_occurrence_with_range(
            node_ref,
            source_children,
            draft,
            op_start,
            op_end,
        ) {
            Ok(source) => source,
            Err(e) => {
                proof {
                    let r = node_ref.0;
                    let mid = interned_graph(before, draft@, key, source_children@);
                    if has_boundary(mid, r) && !(draft@.kind is External) {
                        let s = choose|s: int|
                            0 <= s < mid.nodes.len() && #[trigger] is_boundary_of(mid, s, r);
                        assert(is_boundary_of(before.graph, s, r));
                    }
                }
                return Err(e);
            },
        };
        let node_use = MastNodeUse::new(node_ref, SourceNodeRef(source));
        proof {
            lemma_recorded_extends(
                before,
                self@,
                draft@,
                source_children@,
                op_start,
                op_end,
                node_use,
            );
        }
        Ok(node_use)
    }

    /// Interns a draft and records its occurrence over all its operations.
    pub fn intern_pending_node_use(
        &mut self,
        draft: &PendingMastNodeDraft,
        source_children: &Vec<u32>,
    ) -> (res: Result<MastNodeUse, BuildError>)
        requires
            old(self)@.wf(),
            draft_ok(old(self)@, draft@),
            sources_ok(old(self)@, source_children@),
        ensures
            final(self).registry == old(self).registry,
            draft_op_count(draft@) > u32::MAX ==> res == Err::<MastNodeUse, BuildError>(
                BuildError::TooManyOperations,
            ),
            match res {
                Ok(node_use) => {
                    &&& recorded(old(self)@, final(self)@, draft@, source_children@, node_use)
                    &&& final(self)@.wf()
                    &&& extends(old(self)@, final(self)@)
                    &&& final(self)@.has_use(node_use)
                    &&& final(self)@.nodes[node_use.node_ref.0 as int].key == draft_key(
                        old(self)@.nodes,
                        draft@,
                    )
                    &&& final(self)@.graph.nodes[node_use.source_ref.0 as int].exec_node
                        == node_use.node_ref.0
                    &&& !(draft@.kind is External) ==> is_settled(
                        final(self)@,
                        node_use.source_ref.0 as int,
                    ) && final(self)@.graph.nodes[node_use.source_ref.0 as int] == occurrence_of(
                        node_use.node_ref.0,
                        source_children@,
                        draft@,
                        0,
                        draft_op_count(draft@) as u32,
                    )
                },
                Err(e) => if draft_op_count(draft@) > u32::MAX {
                    e == BuildError::TooManyOperations && final(self)@ == old(self)@
                } else {
                    spent(final(self)@, e) && record_failed(old(self)@, final(self)@, draft@, e)
                },
            },
    {
        let op_end: u32 = match MastForestBuilder::source_op_range_for_draft(draft) {
            Ok(op_end) => op_end,
            Err(e) => {
                return Err(e);
            },
        };
        self.intern_pending_node_over_range(draft, source_children, 0, op_end)
    }

    /// Interns a control node that an assembly operation belongs to.
    fn intern_pending_node_with_asm_op_use(
        &mut self,
        kind: PendingMastNodeKind,
        digest: Word,
        child_refs: Vec<MastNodeRef>,
        asm_op: AssemblyOp,
        inline_calls: Vec<DebugSourceInlineCall>,
        source_children: &Vec<u32>,
    ) -> (res: Result<MastNodeUse, BuildError>)
        requires
            old(self)@.wf(),
            !(kind@ is BasicBlock),
            draft_ok(
                old(self)@,
                control_draft(kind@, digest, child_refs@, asm_op, inline_calls@),
            ),
            sources_ok(old(self)@, source_children@),
        ensures
            final(self).registry == old(self).registry,
            match res {
                Ok(node_use) => {
                    let draft = control_draft(kind@, digest, child_refs@, asm_op, inline_calls@);
                    &&& recorded(old(self)@, final(self)@, draft, source_children@, node_use)
                    &&& final(self)@.wf()
                    &&& extends(old(self)@, final(self)@)
                    &&& final(self)@.has_use(node_use)
                },
                Err(e) => spent(final(self)@, e) && record_failed(
                    old(self)@,
                    final(self)@,
                    control_draft(kind@, digest, child_refs@, asm_op, inline_calls@),
                    e,
                ),
            },
    {
        let mut draft = PendingMastNodeDraft::new(kind, digest, child_refs);
        let mut rows: Vec<DebugSourceAsmOp> = Vec::new();
        rows.push(
            DebugSourceAsmOp {
                op_idx: 0,
                location_idx: asm_op.location_idx,
                context_name_idx: asm_op.context_name_idx,
                op_name_idx: asm_op.op_name_idx,
                num_cycles: asm_op.num_cycles,
            },
        );
        assert(rows@ =~= seq![first_row(asm_op)]);
        draft.asm_ops = rows;
        draft.inline_calls = inline_calls;
        proof {
            lemma_control_count(draft@, asm_op);
        }
        self.intern_pending_node_use(&draft, source_children)
    }

    /// Adds a split over two branches.
    pub fn ensure_split_node_use(
        &mut self,
        on_true: MastNodeUse,
        on_false: MastNodeUse,
        asm_op: AssemblyOp,
        inline_calls: Vec<DebugSourceInlineCall>,
    ) -> (res: Result<MastNodeUse, BuildError>)
        requires
            old(self)@.wf(),
            old(self)@.has_use(on_true),
            old(self)@.has_use(on_false),
        ensures
            final(self).registry == old(self).registry,
            match res {
                Ok(node_use) => {
                    &&& recorded(
                        old(self)@,
                        final(self)@,
                        control_draft(
                            PendingKind::Split,
                            merge_in_domain_spec(
                                digest_of_ref(old(self)@, on_true.node_ref),
                                digest_of_ref(old(self)@, on_false.node_ref),
                                SPLIT_DOMAIN,
                            ),
                            seq![on_true.node_ref, on_false.node_ref],
                            asm_op,
                            inline_calls@,
                        ),
                        seq![on_true.source_ref.0, on_false.source_ref.0],
                        node_use,
                    )
                    &&& final(self)@.wf()
                    &&& extends(old(self)@, final(self)@)
                    &&& final(self)@.has_use(node_use)
                },
                Err(e) => spent(final(self)@, e) && record_failed(
                    old(self)@,
                    final(self)@,
                    control_draft(
                        PendingKind::Split,
                        merge_in_domain_spec(
                            digest_of_ref(old(self)@, on_true.node_ref),
                            digest_of_ref(old(self)@, on_false.node_ref),
                            SPLIT_DOMAIN,
                        ),
                        seq![on_true.node_ref, on_false.node_ref],
                        asm_op,
                        inline_calls@,
                    ),
                    e,
                ),
            },
    {
        let digest = merge_in_domain(
            &self.mast_root(on_true.node_ref),
            &self.mast_root(on_false.node_ref),
            SPLIT_DOMAIN,
        );
        let (child_refs, sources) = pair_refs(on_true, on_false);
        self.intern_pending_node_with_asm_op_use(
            PendingMastNodeKind::Split,
            digest,
            child_refs,
            asm_op,
            inline_calls,
            &sources,
        )
    }

    /// Adds a loop around a body.
    pub fn ensure_loop_node_use(
        &mut self,
        body: MastNodeUse,
        asm_op: AssemblyOp,
        inline_calls: Vec<DebugSourceInlineCall>,
    ) -> (res: Result<MastNodeUse, BuildError>)
        requires
            old(self)@.wf(),
            old(self)@.has_use(body),
        ensures
            final(self).registry == old(self).registry,
            match res {
                Ok(node_use) => {
                    &&& recorded(
                        old(self)@,
                        final(self)@,
                        control_draft(
                            PendingKind::Loop,
                            merge_in_domain_spec(
                                digest_of_ref(old(self)@, body.node_ref),
                                Word::zero_spec(),
                                LOOP_DOMAIN,
                            ),
                            seq![body.node_ref],
                            asm_op,
                            inline_calls@,
                        ),
                        seq![body.source_ref.0],
                        node_use,
                    )
                    &&& final(self)@.wf()
                    &&& extends(old(self)@, final(self)@)
                    &&& final(self)@.has_use(node_use)
                },
                Err(e) => spent(final(self)@, e) && record_failed(
                    old(self)@,
                    final(self)@,
                    control_draft(
                        PendingKind::Loop,
                        merge_in_domain_spec(
                            digest_of_ref(old(self)@, body.node_ref),
                            Word::zero_spec(),
                            LOOP_DOMAIN,
                        ),
                        seq![body.node_ref],
                        asm_op,
                        inline_calls@,
                    ),
                    e,
                ),
            },
    {
        let digest = merge_in_domain(
            &self.mast_root(body.node_ref),
            &Word::default(),
            LOOP_DOMAIN,
        );
        let (child_refs, sources) = single_ref(body);
        self.intern_pending_node_with_asm_op_use(
            PendingMastNodeKind::Loop,
            digest,
            child_refs,
            asm_op,
            inline_calls,
            &sources,
        )
    }

    /// Adds a call or a system call.
    pub fn ensure_call_node_use(
        &mut self,
        callee: MastNodeUse,
        is_syscall: bool,
        asm_op: AssemblyOp,
        inline_calls: Vec<DebugSourceInlineCall>,
    ) -> (res: Result<MastNodeUse, BuildError>)
        requires
            old(self)@.wf(),
            old(self)@.has_use(callee),
        ensures
            final(self).registry == old(self).registry,
            match res {
                Ok(node_use) => {
                    &&& recorded(
                        old(self)@,
                        final(self)@,
                        control_draft(
                            PendingKind::Call(is_syscall),
                            merge_in_domain_spec(
                                digest_of_ref(old(self)@, callee.node_ref),
                                Word::zero_spec(),
                                if is_syscall {
                                    SYSCALL_DOMAIN
                                } else {
                                    CALL_DOMAIN
                                },
                            ),
                            seq![callee.node_ref],
                            asm_op,
                            inline_calls@,
                        ),
                        seq![callee.source_ref.0],
                        node_use,
                    )
                    &&& final(self)@.wf()
                    &&& extends(old(self)@, final(self)@)
                    &&& final(self)@.has_use(node_use)
                },
                Err(e) => spent(final(self)@, e) && record_failed(
                    old(self)@,
                    final(self)@,
                    control_draft(
                        PendingKind::Call(is_syscall),
                        merge_in_domain_spec(
                            digest_of_ref(old(self)@, callee.node_ref),
                            Word::zero_spec(),
                            if is_syscall {
                                SYSCALL_DOMAIN
                            } else {
                                CALL_DOMAIN
                            },
                        ),
                        seq![callee.node_ref],
                        asm_op,
                        inline_calls@,
                    ),
                    e,
                ),
            },
    {
        let domain: u64 = if is_syscall {
            SYSCALL_DOMAIN
        } else {
            CALL_DOMAIN
        };
        let digest = merge_in_domain(&self.mast_root(callee.node_ref), &Word::default(), domain);
        let (child_refs, sources) = single_ref(callee);
        self.intern_pending_node_with_asm_op_use(
            PendingMastNodeKind::Call { is_syscall },
            digest,
            child_refs,
            asm_op,
            inline_calls,
            &sources,
        )
    }

    /// Adds a dynamic execution or a dynamic call.
    pub fn ensure_dyn_node_use(
        &mut self,
        is_dyncall: bool,
        asm_op: AssemblyOp,
        inline_calls: Vec<DebugSourceInlineCall>,
    ) -> (res: Result<MastNodeUse, BuildError>)
        requires
            old(self)@.wf(),
        ensures
            final(self).registry == old(self).registry,
            match res {
                Ok(node_use) => {
                    &&& recorded(
                        old(self)@,
                        final(self)@,
                        control_draft(
                            PendingKind::Dyn(is_dyncall),
                            merge_in_domain_spec(
                                Word::zero_spec(),
                                Word::zero_spec(),
                                if is_dyncall {
                                    DYNCALL_DOMAIN
                                } else {
                                    DYN_DOMAIN
                                },
                            ),
                            Seq::empty(),
                            asm_op,
                            inline_calls@,
                        ),
                        Seq::empty(),
                        node_use,
                    )
                    &&& final(self)@.wf()
                    &&& extends(old(self)@, final(self)@)
                    &&& final(self)@.has_use(node_use)
                },
                Err(e) => spent(final(self)@, e) && record_failed(
                    old(self)@,
                    final(self)@,
                    control_draft(
                        PendingKind::Dyn(is_dyncall),
                        merge_in_domain_spec(
                            Word::zero_spec(),
                            Word::zero_spec(),
                            if is_dyncall {
                                DYNCALL_DOMAIN
                            } else {
                                DYN_DOMAIN
                            },
                        ),
                        Seq::empty(),
                        asm_op,
                        inline_calls@,
                    ),
                    e,
                ),
            },
    {
        let domain: u64 = if is_dyncall {
            DYNCALL_DOMAIN
        } else {
            DYN_DOMAIN
        };
        let digest = merge_in_domain(&Word::default(), &Word::default(), domain);
        let child_refs: Vec<MastNodeRef> = Vec::new();
        let sources: Vec<u32> = Vec::new();
        assert(child_refs@ =~= Seq::empty());
        assert(sources@ =~= Seq::empty());
        self.intern_pending_node_with_asm_op_use(
            PendingMastNodeKind::Dyn { is_dyncall },
            digest,
            child_refs,
            asm_op,
            inline_calls,
            &sources,
        )
    }

    /// The digest of a node.
    pub fn mast_root(&self, node_ref: MastNodeRef) -> (digest: Word)
        requires
            node_ref.0 < self@.nodes.len(),
        ensures
            digest == digest_of_ref(self@, node_ref),
    {
        self.nodes[node_ref.0 as usize].digest
    }

    /// Marks a use as the root of a procedure: its node and its occurrence, each once.
    pub fn record_procedure_root_use(&mut self, root: MastNodeUse)
        requires
            old(self)@.wf(),
            old(self)@.has_use(root),
        ensures
            final(self).registry == old(self).registry,
            final(self)@.wf(),
            extends(old(self)@, final(self)@),
            final(self)@ == (BuilderModel {
                roots: if old(self)@.roots.contains(root.node_ref) {
                    old(self)@.roots
                } else {
                    old(self)@.roots.push(root.node_ref)
                },
                graph: GraphModel {
                    roots: if old(self)@.graph.roots.contains(root.source_ref.0) {
                        old(self)@.graph.roots
                    } else {
                        old(self)@.graph.roots.push(root.source_ref.0)
                    },
                    ..old(self)@.graph
                },
                ..old(self)@
            }),
    {
        if !self.is_procedure_root_ref(root.node_ref) {
            self.procedure_root_refs.push(root.node_ref);
        }
        self.graph.add_root(root.source_ref.0);
        proof {
            lemma_entries_kept(old(self)@, self@);
        }
    }

    /// Whether a node is the root of a procedure.
    pub fn is_procedure_root_ref(&self, node_ref: MastNodeRef) -> (res: bool)
        ensures
            res == self@.roots.contains(node_ref),
    {
        let mut i: usize = 0;
        while i < self.procedure_root_refs.len()
            invariant
                i <= self.procedure_root_refs@.len(),
                forall|j: int| 0 <= j < i ==> self.procedure_root_refs@[j] != node_ref,
            decreases self.procedure_root_refs@.len() - i,
        {
            if self.procedure_root_refs[i] == node_ref {
                return true;
            }
            i += 1;
        }
        false
    }

    fn find_copy(&self, source: u32, key: &Vec<(u32, u32)>) -> (copy: Option<u32>)
        ensures
            copy == find_decorated(self@.decorated, source, key@, self@.decorated.len()),
    {
        let mut i: usize = 0;
        while i < self.decorated.len()
            invariant
                i <= self.decorated@.len(),
                find_decorated(self@.decorated, source, key@, i as nat) is None,
            decreases self.decorated@.len() - i,
        {
            assert(self@.decorated[i as int] == self.decorated@[i as int]@);
            if self.decorated[i].source == source && same_chain(&self.decorated[i].chain, key) {
                proof {
                    lemma_find_decorated(
                        self@.decorated,
                        source,
                        key@,
                        (i + 1) as nat,
                        self@.decorated.len(),
                    );
                }
                return Some(self.decorated[i].copy);
            }
            i += 1;
        }
        None
    }

    /// The use of a procedure that is executed in place under a chain of inlined calls.
    ///
    /// Without calls it is the use itself, with its own occurrence. Under calls it is a copy of
    /// the occurrence and everything below it; identical uses share the copy. No occurrence that
    /// was there changes.
    pub fn record_exec_inline_calls(
        &mut self,
        target: MastNodeUse,
        chain: &Vec<DebugSourceInlineCall>,
    ) -> (res: Result<MastNodeUse, BuildError>)
        requires
            old(self)@.wf(),
            old(self)@.has_use(target),
        ensures
            final(self).registry == old(self).registry,
            ({
                let b = old(self)@;
                let key = chain_key(chain@);
                let found = find_decorated(b.decorated, target.source_ref.0, key, b.decorated.len());
                if chain@.len() == 0 {
                    res == Ok::<MastNodeUse, BuildError>(target) && final(self)@ == b
                } else if found is Some {
                    res == Ok::<MastNodeUse, BuildError>(
                        MastNodeUse {
                            node_ref: target.node_ref,
                            source_ref: SourceNodeRef(found->0),
                        },
                    ) && final(self)@ == b
                } else {
                    match res {
                        Ok(node_use) => {
                            let g = final(self)@.graph;
                            &&& node_use.node_ref == target.node_ref
                            &&& node_use.source_ref.0 == g.nodes.len() - 1
                            &&& final(self)@ == (BuilderModel {
                                graph: g,
                                decorated: b.decorated.push(
                                    DecoratedModel {
                                        source: target.source_ref.0,
                                        chain: key,
                                        copy: node_use.source_ref.0,
                                    },
                                ),
                                ..b
                            })
                            &&& appended(b.graph, g)
                            &&& exists|copies: Seq<Option<u32>>|
                                #[trigger] copies_of(g, b.graph.nodes.len(), chain@, copies)
                                    && g.nodes.last() == decorated(
                                    b.graph.nodes[target.source_ref.0 as int],
                                    b.graph.boundary[target.source_ref.0 as int],
                                    chain@,
                                    copies,
                                )
                            &&& g.boundary.last() == b.graph.boundary[target.source_ref.0 as int]
                            &&& final(self)@.wf()
                            &&& extends(b, final(self)@)
                            &&& final(self)@.has_use(node_use)
                        },
                        Err(e) => clone_failed(
                            b.graph,
                            final(self)@.graph,
                            target.source_ref.0,
                            chain@.len(),
                            e,
                        ),
                    }
                }
            }),
            res is Ok ==> final(self)@.wf() && extends(old(self)@, final(self)@)
                && final(self)@.has_use(res->Ok_0),
    {
        let ghost b = self@;
        proof {
            lemma_extends_refl(b);
        }
        if chain.len() == 0 {
            return Ok(target);
        }
        let mut key: Vec<(u32, u32)> = Vec::new();
        let mut i: usize = 0;
        while i < chain.len()
            invariant
                i <= chain@.len(),
                key@ =~= chain_key(chain@).take(i as int),
            decreases chain@.len() - i,
        {
            key.push((chain[i].callee_idx, chain[i].loc_idx));
            i += 1;
        }
        assert(key@ =~= chain_key(chain@));
        let source: u32 = target.source_ref.0;
        if let Some(copy) = self.find_copy(source, &key) {
            proof {
                lemma_found_decorated(b.decorated, source, key@, b.decorated.len());
            }
            return Ok(MastNodeUse::new(target.node_ref, SourceNodeRef(copy)));
        }
        let copies = match self.graph.clone_below(source, chain) {
            Ok(copies) => copies,
            Err(e) => {
                return Err(e);
            },
        };
        let ghost mid = self@.graph;
        proof {
            assert(mid.nodes.take(b.graph.nodes.len() as int)[source as int]
                == b.graph.nodes[source as int]);
            assert(mid.boundary.take(b.graph.boundary.len() as int)[source as int]
                == b.graph.boundary[source as int]);
            assert forall|j: int| 0 <= j < mid.nodes[source as int].children.len() implies (
            #[trigger] mid.nodes[source as int].children[j]) < copies@.len()
                && copies@[mid.nodes[source as int].children[j] as int] is Some by {
                assert(b.graph.nodes[source as int].children[j] < b.graph.nodes.len());
            }
        }
        let node = match self.graph.source_occurrence_with_cloned_children_and_inline_calls(
            source,
            chain,
            &copies,
        ) {
            Ok(node) => node,
            Err(e) => {
                proof {
                    crate::graph::lemma_reaches_itself(b.graph.children(), source);
                }
                return Err(e);
            },
        };
        let ghost model = node@;
        proof {
            assert forall|j: int| 0 <= j < model.children.len() implies (
            #[trigger] model.children[j]) < mid.nodes.len() by {
                assert(mid.nodes[source as int].children[j] < copies@.len());
            }
        }
        let is_boundary: bool = self.graph.boundary[source as usize];
        let none: Vec<u32> = Vec::new();
        let copy: u32 = match self.graph.push(node, &none, is_boundary, false) {
            Ok(copy) => copy,
            Err(e) => {
                return Err(e);
            },
        };
        let ghost items = self@.decorated;
        let item = DecoratedSource { source, chain: key, copy };
        let ghost item_model = item@;
        self.decorated.push(item);
        proof {
            let g = self@.graph;
            assert(self@.decorated =~= items.push(item_model));
            assert(g.functions =~= mid.functions);
            lemma_entries_kept(b, self@);
            assert forall|i: int| 0 <= i < b.graph.nodes.len() implies g.nodes[i]
                == b.graph.nodes[i] && g.boundary[i] == b.graph.boundary[i] by {
                assert(mid.nodes.take(b.graph.nodes.len() as int)[i] == b.graph.nodes[i]);
                assert(mid.boundary.take(b.graph.boundary.len() as int)[i]
                    == b.graph.boundary[i]);
            }
            assert(g.nodes.take(b.graph.nodes.len() as int) =~= b.graph.nodes);
            assert(g.boundary.take(b.graph.boundary.len() as int) =~= b.graph.boundary);
            let n = b.graph.nodes.len();
            assert(copies_of(g, n, chain@, copies@)) by {
                assert forall|s: int| 0 <= s < n && (#[trigger] copies@[s]) is Some implies {
                    let c = copies@[s]->0 as int;
                    &&& n <= c < g.nodes.len()
                    &&& g.nodes[c] == decorated(g.nodes[s], g.boundary[s], chain@, copies@)
                    &&& g.boundary[c] == g.boundary[s]
                    &&& forall|j: int|
                        0 <= j < g.nodes[s].children.len() ==> (#[trigger] g.nodes[s].children[j])
                            < n && copies@[g.nodes[s].children[j] as int] is Some
                } by {
                    let c = copies@[s]->0 as int;
                    assert(mid.nodes[c] == decorated(
                        mid.nodes[s],
                        mid.boundary[s],
                        chain@,
                        copies@,
                    ));
                    assert(g.nodes[c] == mid.nodes[c] && g.nodes[s] == mid.nodes[s]);
                    assert forall|j: int| 0 <= j < g.nodes[s].children.len() implies (
                    #[trigger] g.nodes[s].children[j]) < n
                        && copies@[g.nodes[s].children[j] as int] is Some by {
                        assert(mid.nodes[s].children[j] < n);
                    }
                }
            }
        }
        Ok(MastNodeUse::new(target.node_ref, SourceNodeRef(copy)))
    }
}

fn same_chain(a: &Vec<(u32, u32)>, b: &Vec<(u32, u32)>) -> (res: bool)
    ensures
        res == (a@ == b@),
{
    if a.len() != b.len() {
        return false;
    }
    let mut i: usize = 0;
    while i < a.len()
        invariant
            i <= a@.len() == b@.len(),
            forall|j: int| 0 <= j < i ==> a@[j] == b@[j],
        decreases a@.len() - i,
    {
        if a[i].0 != b[i].0 || a[i].1 != b[i].1 {
            return false;
        }
        i += 1;
    }
    assert(a@ =~= b@);
    true
}

fn pair_refs(a: MastNodeUse, b: MastNodeUse) -> (refs: (Vec<MastNodeRef>, Vec<u32>))
    ensures
        refs.0@ == seq![a.node_ref, b.node_ref],
        refs.1@ == seq![a.source_ref.0, b.source_ref.0],
{
    let mut nodes: Vec<MastNodeRef> = Vec::new();
    nodes.push(a.node_ref);
    nodes.push(b.node_ref);
    let mut sources: Vec<u32> = Vec::new();
    sources.push(a.source_ref.0);
    sources.push(b.source_ref.0);
    assert(nodes@ =~= seq![a.node_ref, b.node_ref]);
    assert(sources@ =~= seq![a.source_ref.0, b.source_ref.0]);
    (nodes, sources)
}

fn single_ref(a: MastNodeUse) -> (refs: (Vec<MastNodeRef>, Vec<u32>))
    ensures
        refs.0@ == seq![a.node_ref],
        refs.1@ == seq![a.source_ref.0],
{
    let mut nodes: Vec<MastNodeRef> = Vec::new();
    nodes.push(a.node_ref);
    let mut sources: Vec<u32> = Vec::new();
    sources.push(a.source_ref.0);
    assert(nodes@ =~= seq![a.node_ref]);
    assert(sources@ =~= seq![a.source_ref.0]);
    (nodes, sources)
}

proof fn lemma_listed_step(list: Seq<u32>, i: int, s: int)
    requires
        0 <= i < list.len(),
    ensures
        crate::source_graph::is_listed(list.take(i + 1), s) <==> crate::source_graph::is_listed(
            list.take(i),
            s,
        ) || list[i] == s,
{
    let a = list.take(i);
    let b = list.take(i + 1);
    if crate::source_graph::is_listed(a, s) {
        let q = choose|q: int| 0 <= q < a.len() && #[trigger] a[q] == s;
        assert(b[q] == s);
    }
    if list[i] == s {
        assert(b[i] == s);
    }
    if crate::source_graph::is_listed(b, s) {
        let q = choose|q: int| 0 <= q < b.len() && #[trigger] b[q] == s;
        if q < i {
            assert(a[q] == s);
        }
    }
}

// LAWS
// ================================================================================================

/// Source rows are no part of what a node is: drafts that execute the same are interned as one node.
pub proof fn law_rows_do_not_tell_nodes_apart(
    nodes: Seq<PendingModel>,
    a: DraftModel,
    b: DraftModel,
)
    requires
        a.digest == b.digest,
        a.kind == b.kind,
        a.child_refs == b.child_refs,
    ensures
        draft_key(nodes, a) == draft_key(nodes, b),
        interned_ref(nodes, draft_key(nodes, a)) == interned_ref(nodes, draft_key(nodes, b)),
{
}

/// A draft that was recorded is found again: a draft with its key is interned as the same node, and
/// no node is added for it.
pub proof fn law_interned_once(
    b: BuilderModel,
    after: BuilderModel,
    draft: DraftModel,
    source_children: Seq<u32>,
    op_start: u32,
    op_end: u32,
    node_use: MastNodeUse,
    again: DraftModel,
)
    requires
        b.wf(),
        after.wf(),
        recorded_over(b, after, draft, source_children, op_start, op_end, node_use),
        draft_key(after.nodes, again) == draft_key(b.nodes, draft),
    ensures
        interned_ref(after.nodes, draft_key(after.nodes, again)) == node_use.node_ref.0,
        interned_nodes(after.nodes, again, draft_key(after.nodes, again)).len()
            == after.nodes.len(),
{
    let key = draft_key(b.nodes, draft);
    let r = interned_ref(b.nodes, key);
    lemma_find_key(b.nodes, key, b.nodes.len());
    lemma_find_key(after.nodes, key, after.nodes.len());
    assert(after.nodes[r as int].key == key);
    let found = find_key(after.nodes, key, after.nodes.len());
    assert(found is Some);
    let q = found->0 as int;
    if q < r {
        assert(after.nodes[q].key != after.nodes[r as int].key);
    } else if q > r {
        assert(after.nodes[r as int].key != after.nodes[q].key);
    }
}

/// A procedure that was executed under a chain of inlined calls shares its copy with the next
/// execution under the same chain.
pub proof fn law_decorated_once(items: Seq<DecoratedModel>, item: DecoratedModel)
    requires
        find_decorated(items, item.source, item.chain, items.len()) is None,
    ensures
        find_decorated(items.push(item), item.source, item.chain, items.len() + 1) == Some(
            item.copy,
        ),
{
    lemma_decorated_same(items, item, items.len());
}

proof fn lemma_decorated_same(items: Seq<DecoratedModel>, item: DecoratedModel, k: nat)
    requires
        k <= items.len(),
    ensures
        find_decorated(items.push(item), item.source, item.chain, k) == find_decorated(
            items,
            item.source,
            item.chain,
            k,
        ),
    decreases k,
{
    if k > 0 {
        lemma_decorated_same(items, item, (k - 1) as nat);
    }
}

proof fn lemma_largest_end(rows: Seq<u32>, k: nat)
    requires
        k <= rows.len(),
    ensures
        forall|i: int| 0 <= i < k ==> #[trigger] rows[i] < largest_end(rows, k),
        largest_end(rows, k) > 0 ==> exists|i: int|
            0 <= i < k && #[trigger] rows[i] + 1 == largest_end(rows, k),
    decreases k,
{
    if k > 0 {
        lemma_largest_end(rows, (k - 1) as nat);
        if rows[k - 1] + 1 <= largest_end(rows, (k - 1) as nat) {
            let i = choose|i: int|
                0 <= i < k - 1 && #[trigger] rows[i] + 1 == largest_end(rows, (k - 1) as nat);
            assert(rows[i] + 1 == largest_end(rows, k));
        } else {
            assert(rows[k - 1] + 1 == largest_end(rows, k));
        }
    }
}

/// The occurrence of code that was recorded says what was drafted: it stands for the node of the
/// draft, over the occurrences that were given for its children, with the rows of the draft. It
/// covers all operations of a block; of other code it covers all operations that its rows speak of,
/// and no more. It is the latest occurrence of its node.
pub proof fn law_occurrences_say_what_was_drafted(
    b: BuilderModel,
    after: BuilderModel,
    draft: DraftModel,
    source_children: Seq<u32>,
    node_use: MastNodeUse,
)
    requires
        b.wf(),
        recorded(b, after, draft, source_children, node_use),
        !(draft.kind is External),
        b.graph.nodes.len() < u32::MAX,
        draft_op_count(draft) <= u32::MAX,
    ensures
        ({
            let occurrence = after.graph.nodes[node_use.source_ref.0 as int];
            &&& node_use.source_ref.0 == b.graph.nodes.len()
            &&& node_use.source_ref.0 < after.graph.nodes.len()
            &&& !after.graph.boundary[node_use.source_ref.0 as int]
            &&& after.graph.history[node_use.node_ref.0 as int].last() == node_use.source_ref.0
            &&& after.nodes[node_use.node_ref.0 as int].key == draft_key(b.nodes, draft)
            &&& occurrence.exec_node == node_use.node_ref.0
            &&& occurrence.children == source_children
            &&& occurrence.asm_ops == draft.asm_ops
            &&& occurrence.debug_vars == draft.debug_vars
            &&& occurrence.inline_calls == draft.inline_calls
            &&& occurrence.call_frames == draft.call_frames
            &&& occurrence.op_start == 0
            &&& draft.kind matches PendingKind::BasicBlock(batches) ==> occurrence.op_end == raw_of(
                batches,
            ).len()
            &&& !(draft.kind is BasicBlock) ==> {
                &&& forall|i: int|
                    0 <= i < draft.asm_ops.len() ==> (#[trigger] draft.asm_ops[i]).op_idx
                        < occurrence.op_end
                &&& forall|i: int|
                    0 <= i < draft.debug_vars.len() ==> (#[trigger] draft.debug_vars[i]).op_idx
                        < occurrence.op_end
                &&& occurrence.op_end > 0 ==> {
                    ||| exists|i: int|
                        0 <= i < draft.asm_ops.len() && (#[trigger] draft.asm_ops[i]).op_idx + 1
                            == occurrence.op_end
                    ||| exists|i: int|
                        0 <= i < draft.debug_vars.len() && (
                        #[trigger] draft.debug_vars[i]).op_idx + 1 == occurrence.op_end
                }
            }
        }),
{
    let key = draft_key(b.nodes, draft);
    lemma_find_key(b.nodes, key, b.nodes.len());
    let r = interned_ref(b.nodes, key);
    let g = interned_graph(b, draft, key, source_children);
    let n = draft_op_count(draft) as u32;
    let node = occurrence_of(r as u32, source_children, draft, 0, n);
    let pushed = g.pushed(node, draft.functions, false, true);
    let s = node_use.source_ref.0 as int;
    assert(g.nodes.len() == b.graph.nodes.len());
    assert(g.boundary.len() == g.nodes.len());
    assert(boundaries_resolved(pushed, after.graph, r as u32, s));
    assert(!is_boundary_of(pushed, s, r as u32));
    assert(after.graph.nodes[s] == pushed.nodes[s]);
    let ops = asm_op_indices(draft.asm_ops);
    let vars = debug_var_indices(draft.debug_vars);
    lemma_largest_end(ops, ops.len());
    lemma_largest_end(vars, vars.len());
    if !(draft.kind is BasicBlock) {
        assert forall|i: int| 0 <= i < draft.asm_ops.len() implies (
        #[trigger] draft.asm_ops[i]).op_idx < n by {
            assert(ops[i] < largest_end(ops, ops.len()));
        }
        assert forall|i: int| 0 <= i < draft.debug_vars.len() implies (
        #[trigger] draft.debug_vars[i]).op_idx < n by {
            assert(vars[i] < largest_end(vars, vars.len()));
        }
        if n > 0 {
            if largest_end(ops, ops.len()) >= largest_end(vars, vars.len()) {
                let i = choose|i: int|
                    0 <= i < ops.len() && #[trigger] ops[i] + 1 == largest_end(ops, ops.len());
                assert(draft.asm_ops[i].op_idx + 1 == n);
            } else {
                let i = choose|i: int|
                    0 <= i < vars.len() && #[trigger] vars[i] + 1 == largest_end(vars, vars.len());
                assert(draft.debug_vars[i].op_idx + 1 == n);
            }
        }
    }
}

/// The functions of a draft are recorded at its occurrence, and all others stay where they were.
pub proof fn law_functions_go_to_their_occurrence(
    b: BuilderModel,
    after: BuilderModel,
    draft: DraftModel,
    source_children: Seq<u32>,
    node_use: MastNodeUse,
    i: int,
)
    requires
        b.wf(),
        recorded(b, after, draft, source_children, node_use),
        0 <= i < b.graph.functions.len(),
    ensures
        after.graph.functions.len() == b.graph.functions.len(),
        after.graph.functions[i] == if exists|j: int|
            0 <= j < draft.functions.len() && #[trigger] draft.functions[j] == i {
            FunctionInfo { source_node: Some(node_use.source_ref.0), ..b.graph.functions[i] }
        } else {
            b.graph.functions[i]
        },
{
    let key = draft_key(b.nodes, draft);
    lemma_find_key(b.nodes, key, b.nodes.len());
    let r = interned_ref(b.nodes, key);
    let g = interned_graph(b, draft, key, source_children);
    assert(g.functions == b.graph.functions);
    assert(g.nodes.len() == b.graph.nodes.len());
    if !(draft.kind is External) {
        let node = occurrence_of(r as u32, source_children, draft, 0, draft_op_count(draft) as u32);
        let pushed = g.pushed(node, draft.functions, false, true);
        assert(boundaries_resolved(pushed, after.graph, r as u32, node_use.source_ref.0 as int));
        assert(after.graph.functions == pushed.functions);
    }
}

/// When code takes the place of a placeholder, the occurrences that were recorded for the placeholder
/// before get the children of the code.
pub proof fn law_placeholders_get_the_children_of_the_code(
    b: BuilderModel,
    after: BuilderModel,
    draft: DraftModel,
    source_children: Seq<u32>,
    node_use: MastNodeUse,
    s: int,
)
    requires
        b.wf(),
        recorded(b, after, draft, source_children, node_use),
        !(draft.kind is External),
        node_use.node_ref.0 < b.nodes.len(),
        b.nodes[node_use.node_ref.0 as int].kind is External,
        crate::source_graph::is_listed(b.graph.history[node_use.node_ref.0 as int], s),
        !b.graph.boundary[s] || b.graph.nodes[s].inline_calls.len() == 0,
    ensures
        after.graph.nodes[s].children == source_children,
        after.nodes[node_use.node_ref.0 as int] == record_of(draft, draft_key(b.nodes, draft)),
{
    let key = draft_key(b.nodes, draft);
    lemma_find_key(b.nodes, key, b.nodes.len());
    let r = interned_ref(b.nodes, key);
    let g = interned_graph(b, draft, key, source_children);
    let node = occurrence_of(r as u32, source_children, draft, 0, draft_op_count(draft) as u32);
    let pushed = g.pushed(node, draft.functions, false, true);
    assert(boundaries_resolved(pushed, after.graph, r as u32, node_use.source_ref.0 as int));
    let j = choose|j: int| 0 <= j < b.graph.history[r as int].len() && #[trigger] b.graph.history[r as int][j]
        == s;
    assert(b.graph.history[r as int][j] < b.graph.nodes.len());
    assert(pushed.nodes[s] == (SourceModel { children: source_children, ..b.graph.nodes[s] }));
    assert(pushed.boundary[s] == b.graph.boundary[s]);
    if is_boundary_of(pushed, s, r as u32) {
        assert(after.graph.nodes[s].exec_node == r);
    } else {
        assert(after.graph.nodes[s] == pushed.nodes[s]);
    }
}

/// Recording is refused for want of room only where four bytes cannot count nodes or occurrences any
/// more; what else can be refused is to put code in the place of what stands for it.
pub proof fn law_recording_is_refused_at_the_limits(
    b: BuilderModel,
    after: BuilderModel,
    draft: DraftModel,
    e: BuildError,
)
    requires
        b.wf(),
        record_failed(b, after, draft, e),
    ensures
        e == BuildError::TooManyNodes ==> b.nodes.len() >= 0xffff_ffff && after == b,
        (forall|s: int| 0 <= s < b.graph.nodes.len() ==> !#[trigger] b.graph.boundary[s]) ==> e
            == BuildError::TooManyNodes || (e == BuildError::TooManySources && b.graph.nodes.len()
            >= 0xffff_ffff),
{
    let key = draft_key(b.nodes, draft);
    let r = interned_ref(b.nodes, key);
    if forall|s: int| 0 <= s < b.graph.nodes.len() ==> !#[trigger] b.graph.boundary[s] {
        assert forall|s: int| 0 <= s < b.graph.nodes.len() implies !#[trigger] is_boundary_of(
            b.graph,
            s,
            r as u32,
        ) by {
            assert(!b.graph.boundary[s]);
        }
    }
}

/// A use of code from elsewhere is recorded as one that stands for code that is not there, over
/// nothing; if the code is there, it is used as it occurred last, and no occurrence is added.
pub proof fn law_code_from_elsewhere_is_used_if_it_is_there(
    b: BuilderModel,
    after: BuilderModel,
    draft: DraftModel,
    source_children: Seq<u32>,
    node_use: MastNodeUse,
)
    requires
        b.wf(),
        recorded(b, after, draft, source_children, node_use),
        draft.kind is External,
        b.graph.nodes.len() < u32::MAX,
    ensures
        ({
            let r = node_use.node_ref.0 as int;
            let s = node_use.source_ref.0 as int;
            if r < b.nodes.len() && !(b.nodes[r].kind is External) {
                &&& node_use.source_ref.0 == b.graph.history[r].last()
                &&& after.graph.nodes == b.graph.nodes
                &&& after.graph.boundary == b.graph.boundary
                &&& after.nodes == b.nodes
            } else {
                &&& s == b.graph.nodes.len()
                &&& after.graph.nodes.len() == b.graph.nodes.len() + 1
                &&& after.graph.boundary[s]
                &&& after.graph.nodes[s].exec_node == r
                &&& after.graph.nodes[s].inline_calls == draft.inline_calls
                &&& after.graph.history[r].last() == s
                &&& after.nodes[r].kind is External
            }
        }),
{
    let key = draft_key(b.nodes, draft);
    lemma_find_key(b.nodes, key, b.nodes.len());
    let r = interned_ref(b.nodes, key);
    let g = interned_graph(b, draft, key, source_children);
    assert(g.nodes.len() == b.graph.nodes.len());
    assert(g.boundary.len() == g.nodes.len());
}

/// Chains of inlined calls have the same key if and only if they call the same functions from the
/// same places, one after another, wherever they stand.
pub proof fn law_chain_keys_tell_chains_apart(
    a: Seq<DebugSourceInlineCall>,
    b: Seq<DebugSourceInlineCall>,
)
    ensures
        chain_key(a) == chain_key(b) <==> a.len() == b.len() && forall|i: int|
            0 <= i < a.len() ==> (#[trigger] a[i]).callee_idx == b[i].callee_idx && a[i].loc_idx
                == b[i].loc_idx,
{
    if chain_key(a) == chain_key(b) {
        assert(chain_key(a).len() == a.len() && chain_key(b).len() == b.len());
        assert forall|i: int| 0 <= i < a.len() implies (#[trigger] a[i]).callee_idx
            == b[i].callee_idx && a[i].loc_idx == b[i].loc_idx by {
            assert(chain_key(a)[i] == chain_key(b)[i]);
        }
    }
    if a.len() == b.len() && forall|i: int|
        0 <= i < a.len() ==> (#[trigger] a[i]).callee_idx == b[i].callee_idx && a[i].loc_idx
            == b[i].loc_idx {
        assert(chain_key(a) =~= chain_key(b));
    }
}

/// A copy is found for an occurrence under a chain if and only if one was made of that occurrence
/// under that chain, and what is found is such a copy.
pub proof fn law_copies_are_found_for_their_chain(
    items: Seq<DecoratedModel>,
    source: u32,
    chain: Seq<(u32, u32)>,
    k: nat,
)
    requires
        k <= items.len(),
    ensures
        match find_decorated(items, source, chain, k) {
            Some(c) => exists|i: int|
                0 <= i < k && (#[trigger] items[i]).source == source && items[i].chain == chain
                    && items[i].copy == c,
            None => forall|i: int|
                0 <= i < k ==> (#[trigger] items[i]).source != source || items[i].chain != chain,
        },
    decreases k,
{
    if k > 0 {
        law_copies_are_found_for_their_chain(items, source, chain, (k - 1) as nat);
        if find_decorated(items, source, chain, (k - 1) as nat) is None && find_decorated(
            items,
            source,
            chain,
            k,
        ) is Some {
            assert(items[k - 1].copy == find_decorated(items, source, chain, k)->0);
        }
    }
}

} // verus!
