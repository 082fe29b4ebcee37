//! Linking packages statically: the code of a procedure and its source graph are copied into the
//! forest under construction.

use vstd::prelude::*;
use crate::builder::{
    extends, frame_kept, lemma_extends_refl, lemma_extends_trans, lemma_recorded_adds, lemma_recorded_frame,
    record_failed, recorded, recorded_over, sources_ok, spent, BuilderModel, MastForestBuilder,
};
use crate::debug_info::{copy_vec, DebugInfoTableRemapping, MissingIndex, SourceModel, TablesModel};
use crate::debug_types::DebugTypeError;
use crate::felt::Word;
use crate::forest::{ForestModel, MastForest};
use crate::graph::{
    child_lists, children_first, closed, has_cycle, is_left_order, is_post_order, is_walk,
    law_descending_acyclic, law_post_order_acyclic, law_post_order_complete, left_in,
    lemma_left_prefix, node_of, post_order, reaches, steps_reach, walk, WalkStep,
};
use crate::linked_names::{imports_known, keeps_imports, law_linked_rows_name_the_same};
use crate::node::{children_below, KindModel, MastNode, MastNodeId, NodeKind, NodeModel};
use crate::pending::{
    bare_draft, pending_kind, DraftModel, MastNodeRef, MastNodeUse, PendingKind,
    PendingMastNodeDraft, PendingMastNodeKind,
};
use crate::registry::same_procedures;
use crate::source_graph::{range_ok, BuildError, GraphModel};
use crate::static_metadata::{
    countable, package_source_metadata, source_metadata, MetadataModel, PackageDebugInfo,
    PackageModel, StaticSourceMetadata,
};
use crate::table_import::{import_failed, with_tables};

verus! {

/// Why a procedure cannot be linked statically.
#[derive(Clone, Copy, PartialEq, Eq, Structural, Debug)]
pub enum StaticImportError {
    Build(BuildError),
    Missing(MissingIndex),
    /// The tables of a package cannot be imported.
    Tables(DebugTypeError),
    /// Several source roots of a package have the same code.
    AmbiguousSourceRoot { exec_node: u32 },
    /// An export refers to a source node that the package does not have.
    MissingSourceNode { source: u32 },
    /// The source node of an export is an occurrence of other code.
    SourceRootMismatch { source: u32, actual: u32, expected: u32 },
    /// A source node refers to an execution node that the package does not have.
    MissingExecNode { source: u32, exec_node: u32 },
    /// A source node has not as many children as its execution node.
    ChildCount { source: u32, actual: usize, expected: usize },
    /// A source node refers to a child that the package does not have.
    MissingChild { source: u32, child: u32 },
    /// A child of a source node is an occurrence of other code than the execution node's child.
    ChildMismatch { source: u32, index: usize },
}

// LOOKING ROOTS UP
// ================================================================================================

/// What identifies a statically linked library.
#[derive(Clone, Copy, PartialEq, Eq, Structural, Debug)]
pub struct LibraryIdentity {
    pub commitment: Word,
    pub alternate: Option<Word>,
}

/// A library is known by a commitment.
pub open spec fn known_by(library: LibraryIdentity, commitment: Word) -> bool {
    library.commitment == commitment || library.alternate == Some(commitment)
}

impl LibraryIdentity {
    /// A library that is known by one commitment.
    pub fn new(commitment: Word) -> (library: LibraryIdentity)
        ensures
            library == (LibraryIdentity { commitment, alternate: None }),
    {
        LibraryIdentity { commitment, alternate: None }
    }

    pub fn with_source_library_commitment(self, commitment: Word) -> (library: LibraryIdentity)
        ensures
            library == (LibraryIdentity { commitment, ..self }),
    {
        LibraryIdentity { commitment, alternate: self.alternate }
    }

    pub fn with_alternate_source_library_commitment(self, commitment: Word) -> (library:
        LibraryIdentity)
        ensures
            library == (LibraryIdentity { alternate: Some(commitment), ..self }),
    {
        LibraryIdentity { commitment: self.commitment, alternate: Some(commitment) }
    }
}

/// Where the roots of the libraries went when their forests were merged.
pub struct StaticRoots {
    pub libraries: Vec<LibraryIdentity>,
    /// For each library, pairs of a root of its forest and the root of the merged forest.
    pub root_maps: Vec<Vec<(MastNodeId, MastNodeId)>>,
}

/// The first root of the merged forest that a root of a library went to, among the first `k`
/// pairs.
pub open spec fn mapped_root(map: Seq<(MastNodeId, MastNodeId)>, root: MastNodeId, k: nat) -> Option<
    MastNodeId,
>
    decreases k,
{
    if k == 0 {
        None
    } else {
        match mapped_root(map, root, (k - 1) as nat) {
            Some(id) => Some(id),
            None => if map[k - 1].0 == root {
                Some(map[k - 1].1)
            } else {
                None
            },
        }
    }
}

/// A library that is known by the commitment and whose root has the digest: the root of the merged
/// forest.
pub open spec fn library_root(
    roots: StaticRoots,
    merged: ForestModel,
    commitment: Word,
    root: MastNodeId,
    mast_root: Word,
    i: int,
) -> Option<MastNodeId> {
    if known_by(roots.libraries@[i], commitment) {
        match mapped_root(roots.root_maps@[i]@, root, roots.root_maps@[i]@.len()) {
            Some(id) => if id.0 < merged.nodes.len() && merged.nodes[id.0 as int].digest
                == mast_root {
                Some(id)
            } else {
                None
            },
            None => None,
        }
    } else {
        None
    }
}

/// How a hint at a library's root was resolved.
#[derive(Clone, Copy, PartialEq, Eq, Structural, Debug)]
pub enum StaticRootLookup {
    /// Exactly one library has the root.
    Found { library: usize, root_id: MastNodeId },
    /// Several libraries have it, so that its metadata could come from the wrong one.
    Ambiguous,
    /// No library has it.
    Missing,
}

/// The lookup over the first `k` libraries.
pub open spec fn looked_up(
    roots: StaticRoots,
    merged: ForestModel,
    commitment: Word,
    root: MastNodeId,
    mast_root: Word,
    k: nat,
) -> StaticRootLookup
    decreases k,
{
    if k == 0 {
        StaticRootLookup::Missing
    } else {
        let before = looked_up(roots, merged, commitment, root, mast_root, (k - 1) as nat);
        match library_root(roots, merged, commitment, root, mast_root, k - 1) {
            None => before,
            Some(root_id) => match before {
                StaticRootLookup::Missing => StaticRootLookup::Found {
                    library: (k - 1) as usize,
                    root_id,
                },
                _ => StaticRootLookup::Ambiguous,
            },
        }
    }
}

fn map_root(map: &Vec<(MastNodeId, MastNodeId)>, root: MastNodeId) -> (id: Option<MastNodeId>)
    ensures
        id == mapped_root(map@, root, map@.len()),
{
    let mut found: Option<MastNodeId> = None;
    let mut i: usize = 0;
    while i < map.len()
        invariant
            i <= map@.len(),
            found == mapped_root(map@, root, i as nat),
        decreases map@.len() - i,
    {
        if found.is_none() && map[i].0 == root {
            found = Some(map[i].1);
        }
        i += 1;
    }
    found
}

impl StaticRoots {
    /// Resolves a hint at a root of a library. A hint that several libraries match resolves to
    /// none of them.
    pub fn find_exact_statically_linked_root(
        &self,
        merged: &MastForest,
        commitment: Word,
        root: MastNodeId,
        mast_root: Word,
    ) -> (res: StaticRootLookup)
        requires
            self.root_maps@.len() == self.libraries@.len(),
        ensures
            res == looked_up(
                *self,
                merged@,
                commitment,
                root,
                mast_root,
                self.libraries@.len(),
            ),
    {
        let mut res = StaticRootLookup::Missing;
        let mut i: usize = 0;
        while i < self.libraries.len()
            invariant
                i <= self.libraries@.len() == self.root_maps@.len(),
                res == looked_up(*self, merged@, commitment, root, mast_root, i as nat),
            decreases self.libraries@.len() - i,
        {
            let library = self.libraries[i];
            let known = library.commitment == commitment || match library.alternate {
                Some(c) => c == commitment,
                None => false,
            };
            if known {
                if let Some(id) = map_root(&self.root_maps[i], root) {
                    if (id.0 as usize) < merged.nodes.len() && merged.nodes[id.0 as usize].digest
                        == mast_root {
                        res =
                        match res {
                            StaticRootLookup::Missing => StaticRootLookup::Found {
                                library: i,
                                root_id: id,
                            },
                            _ => StaticRootLookup::Ambiguous,
                        };
                    }
                }
            }
            i += 1;
        }
        res
    }
}

/// The first of the first `k` procedure roots that has a digest.
pub open spec fn root_with_digest(forest: ForestModel, digest: Word, k: nat) -> Option<MastNodeId>
    decreases k,
{
    if k == 0 {
        None
    } else {
        match root_with_digest(forest, digest, (k - 1) as nat) {
            Some(id) => Some(id),
            None => if forest.nodes[forest.roots[k - 1].0 as int].digest == digest {
                Some(forest.roots[k - 1])
            } else {
                None
            },
        }
    }
}

/// The procedure root of a forest that has a digest.
pub fn find_procedure_root(forest: &MastForest, digest: Word) -> (id: Option<MastNodeId>)
    requires
        forest@.wf(),
    ensures
        id == root_with_digest(forest@, digest, forest@.roots.len()),
        id matches Some(r) ==> r.0 < forest@.nodes.len(),
{
    let mut found: Option<MastNodeId> = None;
    let mut i: usize = 0;
    while i < forest.roots.len()
        invariant
            i <= forest.roots@.len(),
            forest@.wf(),
            found == root_with_digest(forest@, digest, i as nat),
            found matches Some(r) ==> r.0 < forest@.nodes.len(),
        decreases forest.roots@.len() - i,
    {
        let root = forest.roots[i];
        assert(forest@.roots[i as int].0 < forest@.nodes.len());
        if found.is_none() && forest.nodes[root.0 as usize].digest == digest {
            found = Some(root);
        }
        i += 1;
    }
    found
}

/// The source roots of a package, among the first `k`, that are occurrences of an execution node.
pub open spec fn source_roots_of(package: PackageModel, exec_node: u32, k: nat) -> Seq<u32>
    decreases k,
{
    if k == 0 {
        Seq::empty()
    } else {
        let before = source_roots_of(package, exec_node, (k - 1) as nat);
        let root = package.roots[k - 1];
        if root < package.nodes.len() && package.nodes[root as int].exec_node == exec_node {
            before.push(root)
        } else {
            before
        }
    }
}

impl PackageDebugInfo {
    /// The only source root of an execution node; several are ambiguous.
    pub fn unique_source_root_for_exec_node(&self, exec_node: u32) -> (res: Result<
        Option<u32>,
        StaticImportError,
    >)
        ensures
            ({
                let found = source_roots_of(self@, exec_node, self@.roots.len());
                res == if found.len() == 0 {
                    Ok::<Option<u32>, StaticImportError>(None)
                } else if found.len() == 1 {
                    Ok(Some(found[0]))
                } else {
                    Err(StaticImportError::AmbiguousSourceRoot { exec_node })
                }
            }),
    {
        let mut found: Vec<u32> = Vec::new();
        let mut i: usize = 0;
        while i < self.roots.len()
            invariant
                i <= self.roots@.len(),
                found@ == source_roots_of(self@, exec_node, i as nat),
            decreases self.roots@.len() - i,
        {
            let root: u32 = self.roots[i];
            if (root as usize) < self.nodes.len() {
                assert(self@.nodes[root as int] == self.nodes@[root as int]@);
                if self.nodes[root as usize].exec_node == exec_node {
                    found.push(root);
                }
            }
            i += 1;
        }
        if found.len() == 0 {
            Ok(None)
        } else if found.len() == 1 {
            Ok(Some(found[0]))
        } else {
            Err(StaticImportError::AmbiguousSourceRoot { exec_node })
        }
    }
}

// OCCURRENCES OF CHILDREN
// ================================================================================================

/// How many of the first `k` refs are `r`.
pub open spec fn uses_of(refs: Seq<MastNodeRef>, r: MastNodeRef, k: nat) -> nat
    decreases k,
{
    if k == 0 {
        0
    } else {
        uses_of(refs, r, (k - 1) as nat) + if refs[k - 1] == r {
            1nat
        } else {
            0nat
        }
    }
}

/// The occurrence for ref `i` of a list: if a node is listed `n` times, its last `n` occurrences
/// serve in order; if it has fewer, its last one serves again.
pub open spec fn occurrence_for(graph: GraphModel, refs: Seq<MastNodeRef>, i: int) -> u32 {
    let history = graph.history[refs[i].0 as int];
    let needed = uses_of(refs, refs[i], refs.len()) as int;
    let seen = uses_of(refs, refs[i], i as nat) as int;
    let start = if history.len() >= needed {
        history.len() - needed
    } else {
        0
    };
    history[if start + seen < history.len() {
        start + seen
    } else {
        history.len() - 1
    }]
}

fn count_uses(refs: &Vec<MastNodeRef>, r: MastNodeRef, k: usize) -> (n: usize)
    requires
        k <= refs@.len(),
    ensures
        n == uses_of(refs@, r, k as nat),
        n <= k,
{
    let mut n: usize = 0;
    let mut i: usize = 0;
    while i < k
        invariant
            i <= k <= refs@.len(),
            n == uses_of(refs@, r, i as nat),
            n <= i,
        decreases k - i,
    {
        if refs[i] == r {
            n = n + 1;
        }
        i += 1;
    }
    n
}

impl MastForestBuilder {
    /// The occurrences for a list of nodes.
    pub fn source_refs_for_node_ref_occurrences(&self, refs: &Vec<MastNodeRef>) -> (sources: Vec<
        u32,
    >)
        requires
            self@.wf(),
            forall|i: int| 0 <= i < refs@.len() ==> (#[trigger] refs@[i]).0 < self@.nodes.len(),
        ensures
            sources@.len() == refs@.len(),
            forall|i: int|
                0 <= i < refs@.len() ==> #[trigger] sources@[i] == occurrence_for(
                    self@.graph,
                    refs@,
                    i,
                ),
            sources_ok(self@, sources@),
    {
        let mut sources: Vec<u32> = Vec::new();
        let mut i: usize = 0;
        while i < refs.len()
            invariant
                i <= refs@.len(),
                self@.wf(),
                forall|i: int| 0 <= i < refs@.len() ==> (#[trigger] refs@[i]).0 < self@.nodes.len(),
                sources@.len() == i,
                forall|k: int|
                    0 <= k < i ==> #[trigger] sources@[k] == occurrence_for(self@.graph, refs@, k),
                sources_ok(self@, sources@),
            decreases refs@.len() - i,
        {
            let r = refs[i];
            assert(refs@[i as int].0 < self@.nodes.len());
            let history = &self.graph.history[r.0 as usize];
            assert(self@.graph.history[r.0 as int] == history@);
            assert(self@.graph.history[r.0 as int].len() > 0);
            let needed: usize = count_uses(refs, r, refs.len());
            let seen: usize = count_uses(refs, r, i);
            let n: usize = history.len();
            let start: usize = if n >= needed {
                n - needed
            } else {
                0
            };
            let at: usize = if seen < n - start {
                start + seen
            } else {
                n - 1
            };
            assert(self@.graph.history[r.0 as int][at as int] < self@.graph.nodes.len());
            sources.push(history[at]);
            i += 1;
        }
        sources
    }

    /// Interns a placeholder for a procedure that is linked elsewhere, unless its code is there.
    pub fn ensure_external_node(&mut self, mast_root: Word) -> (res: Result<
        MastNodeUse,
        BuildError,
    >)
        requires
            old(self)@.wf(),
            mast_root.wf(),
        ensures
            final(self).registry == old(self).registry,
            match res {
                Ok(u) => {
                    &&& recorded(
                        old(self)@,
                        final(self)@,
                        bare_draft(PendingKind::External, mast_root, Seq::empty()),
                        Seq::empty(),
                        u,
                    )
                    &&& final(self)@.wf()
                    &&& extends(old(self)@, final(self)@)
                    &&& final(self)@.has_use(u)
                    &&& final(self)@.nodes[u.node_ref.0 as int].key == mast_root
                },
                Err(e) => spent(final(self)@, e) && record_failed(
                    old(self)@,
                    final(self)@,
                    bare_draft(PendingKind::External, mast_root, Seq::empty()),
                    e,
                ),
            },
    {
        let draft = PendingMastNodeDraft::new(
            PendingMastNodeKind::External,
            mast_root,
            Vec::new(),
        );
        let none: Vec<u32> = Vec::new();
        assert(draft@.child_refs =~= Seq::empty());
        assert(none@ =~= Seq::empty());
        self.intern_pending_node_use(&draft, &none)
    }
}

// COPYING A PACKAGE
// ================================================================================================

/// What is wrong with source node `x` of a package: it has to be an occurrence of a node of the
/// forest, over occurrences of that node's children.
pub open spec fn source_fault(forest: Seq<NodeModel>, package: PackageModel, x: u32) -> Option<
    StaticImportError,
> {
    let node = package.nodes[x as int];
    if node.exec_node >= forest.len() {
        Some(StaticImportError::MissingExecNode { source: x, exec_node: node.exec_node })
    } else {
        let children = forest[node.exec_node as int].kind.children();
        if children.len() != node.children.len() {
            Some(
                StaticImportError::ChildCount {
                    source: x,
                    actual: node.children.len() as usize,
                    expected: children.len() as usize,
                },
            )
        } else {
            child_fault(package, x, children, children.len())
        }
    }
}

/// What is wrong with the first `k` children of a source node.
pub open spec fn child_fault(
    package: PackageModel,
    x: u32,
    children: Seq<MastNodeId>,
    k: nat,
) -> Option<StaticImportError>
    decreases k,
{
    if k == 0 {
        None
    } else {
        match child_fault(package, x, children, (k - 1) as nat) {
            Some(e) => Some(e),
            None => {
                let child = package.nodes[x as int].children[k - 1];
                if child >= package.nodes.len() {
                    Some(StaticImportError::MissingChild { source: x, child })
                } else if package.nodes[child as int].exec_node != children[k - 1].0 {
                    Some(StaticImportError::ChildMismatch { source: x, index: (k - 1) as usize })
                } else {
                    None
                }
            },
        }
    }
}

/// The children of each source node; those that refer to nothing are left out.
pub open spec fn sound_children(package: PackageModel) -> Seq<Seq<u32>> {
    Seq::new(
        package.nodes.len(),
        |i: int|
            if forall|j: int|
                0 <= j < package.nodes[i].children.len() ==> (
                #[trigger] package.nodes[i].children[j]) < package.nodes.len() {
                package.nodes[i].children
            } else {
                Seq::empty()
            },
    )
}

/// The draft of a node of a package over the uses of its children.
pub open spec fn static_draft(
    node: NodeModel,
    child_uses: Seq<MastNodeUse>,
    metadata: MetadataModel,
) -> DraftModel {
    DraftModel {
        digest: node.digest,
        kind: pending_kind(node.kind),
        child_refs: Seq::new(child_uses.len(), |i: int| child_uses[i].node_ref),
        asm_ops: metadata.asm_ops,
        debug_vars: metadata.debug_vars,
        inline_calls: metadata.inline_calls,
        call_frames: metadata.call_frames,
        functions: metadata.functions,
    }
}

pub open spec fn use_sources(uses: Seq<MastNodeUse>) -> Seq<u32> {
    Seq::new(uses.len(), |i: int| uses[i].source_ref.0)
}

/// The uses that the children of a source node were copied as.
pub open spec fn children_uses(node: SourceModel, uses: Seq<Option<MastNodeUse>>) -> Seq<
    MastNodeUse,
> {
    Seq::new(node.children.len(), |j: int| uses[node.children[j] as int]->0)
}

/// Source node `x` was copied as `uses[x]`, over the copies of its children, at some point between
/// `b` and `after`.
#[verifier::opaque]
pub open spec fn copied_as(
    b: BuilderModel,
    after: BuilderModel,
    forest: Seq<NodeModel>,
    package: PackageModel,
    tables: TablesModel,
    uses: Seq<Option<MastNodeUse>>,
    x: u32,
) -> bool {
    let node = package.nodes[x as int];
    &&& uses[x as int] is Some
    &&& after.has_use(uses[x as int]->0)
    &&& forall|j: int|
        0 <= j < node.children.len() ==> (#[trigger] node.children[j]) < uses.len()
            && uses[node.children[j] as int] is Some
    &&& source_metadata(forest, package, tables, x) matches Ok(metadata) && exists|
        at: BuilderModel,
        next: BuilderModel,
    | #[trigger]
        copied_between(
            at,
            next,
            static_draft(forest[node.exec_node as int], children_uses(node, uses), metadata),
            use_sources(children_uses(node, uses)),
            metadata,
            uses[x as int]->0,
        ) && extends(b, at) && extends(next, after)
}

/// Source node `x` was copied from one state to the next, as `uses[x]` over the copies of its
/// children.
pub open spec fn copied_step(
    forest: Seq<NodeModel>,
    package: PackageModel,
    tables: TablesModel,
    uses: Seq<Option<MastNodeUse>>,
    x: u32,
    at: BuilderModel,
    next: BuilderModel,
) -> bool {
    let node = package.nodes[x as int];
    &&& x < uses.len()
    &&& uses[x as int] is Some
    &&& forall|j: int|
        0 <= j < node.children.len() ==> (#[trigger] node.children[j]) < uses.len()
            && uses[node.children[j] as int] is Some
    &&& source_metadata(forest, package, tables, x) matches Ok(metadata) && copied_between(
        at,
        next,
        static_draft(forest[node.exec_node as int], children_uses(node, uses), metadata),
        use_sources(children_uses(node, uses)),
        metadata,
        uses[x as int]->0,
    )
}

/// The source nodes of an order were copied one after another, each from the state in which the one
/// before it left the builder.
pub open spec fn copied_along(
    forest: Seq<NodeModel>,
    package: PackageModel,
    tables: TablesModel,
    uses: Seq<Option<MastNodeUse>>,
    order: Seq<u32>,
    states: Seq<BuilderModel>,
) -> bool {
    &&& states.len() == order.len() + 1
    &&& forall|i: int|
        0 <= i < order.len() ==> copied_step(
            forest,
            package,
            tables,
            uses,
            #[trigger] order[i],
            states[i],
            states[i + 1],
        )
}

/// The source nodes of an order were copied one after another, from `b` to `after`, and nothing
/// else was done.
#[verifier::opaque]
pub open spec fn copied_chain(
    b: BuilderModel,
    after: BuilderModel,
    forest: Seq<NodeModel>,
    package: PackageModel,
    tables: TablesModel,
    uses: Seq<Option<MastNodeUse>>,
    order: Seq<u32>,
) -> bool {
    exists|states: Seq<BuilderModel>| #[trigger]
        copied_along(forest, package, tables, uses, order, states) && states[0] == b
            && states.last() == after
}

proof fn lemma_chain_starts(
    b: BuilderModel,
    forest: Seq<NodeModel>,
    package: PackageModel,
    tables: TablesModel,
    uses: Seq<Option<MastNodeUse>>,
    order: Seq<u32>,
)
    requires
        order.len() == 0,
    ensures
        copied_chain(b, b, forest, package, tables, uses, order),
{
    reveal(copied_chain);
    assert(copied_along(forest, package, tables, uses, order, seq![b]));
}

/// One more source node was copied.
proof fn lemma_chain_grows(
    b: BuilderModel,
    before: BuilderModel,
    after: BuilderModel,
    forest: Seq<NodeModel>,
    package: PackageModel,
    tables: TablesModel,
    earlier: Seq<Option<MastNodeUse>>,
    uses: Seq<Option<MastNodeUse>>,
    order: Seq<u32>,
    x: u32,
)
    requires
        copied_chain(b, before, forest, package, tables, earlier, order),
        copied_step(forest, package, tables, uses, x, before, after),
        x < earlier.len(),
        earlier[x as int] is None,
        uses == earlier.update(x as int, uses[x as int]),
    ensures
        copied_chain(b, after, forest, package, tables, uses, order.push(x)),
{
    reveal(copied_chain);
    let states = choose|states: Seq<BuilderModel>| #[trigger]
        copied_along(forest, package, tables, earlier, order, states) && states[0] == b
            && states.last() == before;
    let more = states.push(after);
    let longer = order.push(x);
    assert forall|i: int| 0 <= i < longer.len() implies copied_step(
        forest,
        package,
        tables,
        uses,
        #[trigger] longer[i],
        more[i],
        more[i + 1],
    ) by {
        if i < order.len() {
            let y = order[i];
            let node = package.nodes[y as int];
            assert(copied_step(forest, package, tables, earlier, y, states[i], states[i + 1]));
            assert forall|j: int| 0 <= j < node.children.len() implies (
            #[trigger] node.children[j]) < uses.len() && uses[node.children[j] as int] is Some
                && uses[node.children[j] as int] == earlier[node.children[j] as int] by {
                assert(earlier[node.children[j] as int] is Some);
            }
            assert(children_uses(node, uses) =~= children_uses(node, earlier));
        }
    }
    assert(copied_along(forest, package, tables, uses, longer, more));
}

/// A draft was recorded from one state to the next.
pub open spec fn copied_between(
    at: BuilderModel,
    next: BuilderModel,
    draft: DraftModel,
    sources: Seq<u32>,
    metadata: MetadataModel,
    u: MastNodeUse,
) -> bool {
    &&& at.wf()
    &&& next.wf()
    &&& recorded_over(at, next, draft, sources, metadata.op_start, metadata.op_end, u)
}

proof fn lemma_arity(kind: KindModel)
    ensures
        pending_kind(kind).arity() == kind.children().len(),
{
}

proof fn lemma_copied_stays(
    b: BuilderModel,
    before: BuilderModel,
    after: BuilderModel,
    forest: Seq<NodeModel>,
    package: PackageModel,
    tables: TablesModel,
    uses: Seq<Option<MastNodeUse>>,
    more: Seq<Option<MastNodeUse>>,
    x: u32,
)
    requires
        copied_as(b, before, forest, package, tables, uses, x),
        extends(before, after),
        before.wf(),
        more.len() == uses.len(),
        forall|i: int|
            0 <= i < uses.len() && (#[trigger] uses[i]) is Some ==> more[i] == uses[i],
        x < uses.len(),
    ensures
        copied_as(b, after, forest, package, tables, more, x),
{
    reveal(copied_as);
    let node = package.nodes[x as int];
    let metadata = source_metadata(forest, package, tables, x)->Ok_0;
    assert(uses[x as int] is Some);
    assert forall|j: int| 0 <= j < node.children.len() implies (#[trigger] node.children[j])
        < more.len() && more[node.children[j] as int] is Some && more[node.children[j] as int]
        == uses[node.children[j] as int] by {
        assert(uses[node.children[j] as int] is Some);
    }
    assert(children_uses(node, more) =~= children_uses(node, uses));
    let (at, next) = choose|at: BuilderModel, next: BuilderModel| #[trigger]
        copied_between(
            at,
            next,
            static_draft(forest[node.exec_node as int], children_uses(node, uses), metadata),
            use_sources(children_uses(node, uses)),
            metadata,
            uses[x as int]->0,
        ) && extends(b, at) && extends(next, before);
    lemma_extends_trans(next, before, after);
    assert(copied_between(
        at,
        next,
        static_draft(forest[node.exec_node as int], children_uses(node, more), metadata),
        use_sources(children_uses(node, more)),
        metadata,
        more[x as int]->0,
    ));
}

/// A package whose graph is well formed enough to be read: ranges do not end before they start,
/// and the blocks of its forest can be counted.
pub open spec fn package_ok(forest: Seq<NodeModel>, package: PackageModel) -> bool {
    &&& package.nodes.len() <= u32::MAX
    &&& package.functions.len() <= u32::MAX
    &&& forall|i: int| 0 <= i < package.nodes.len() ==> range_ok(#[trigger] package.nodes[i])
    &&& forall|i: int|
        0 <= i < forest.len() ==> countable((#[trigger] forest[i]).kind) && forest[i].digest.wf()
}

fn child_ids(kind: &NodeKind) -> (children: Vec<MastNodeId>)
    ensures
        children@ == kind@.children(),
{
    let mut children: Vec<MastNodeId> = Vec::new();
    match kind {
        NodeKind::Join(a, b) => {
            children.push(*a);
            children.push(*b);
        },
        NodeKind::Split(a, b) => {
            children.push(*a);
            children.push(*b);
        },
        NodeKind::Loop(a) => {
            children.push(*a);
        },
        NodeKind::Call(a) => {
            children.push(*a);
        },
        NodeKind::SysCall(a) => {
            children.push(*a);
        },
        _ => {},
    }
    assert(children@ =~= kind@.children());
    children
}

proof fn lemma_child_fault(package: PackageModel, x: u32, children: Seq<MastNodeId>, k: nat, n: nat)
    requires
        k <= n,
        child_fault(package, x, children, k) is Some,
    ensures
        child_fault(package, x, children, n) == child_fault(package, x, children, k),
    decreases n - k,
{
    if k < n {
        lemma_child_fault(package, x, children, k, (n - 1) as nat);
    }
}

/// Checks a source node of a package against the package's forest.
pub fn check_source_node(forest: &MastForest, package: &PackageDebugInfo, x: u32) -> (fault: Option<
    StaticImportError,
>)
    requires
        x < package@.nodes.len(),
    ensures
        fault == source_fault(forest@.nodes, package@, x),
{
    let node = &package.nodes[x as usize];
    assert(package@.nodes[x as int] == node@);
    if node.exec_node as usize >= forest.nodes.len() {
        return Some(
            StaticImportError::MissingExecNode { source: x, exec_node: node.exec_node },
        );
    }
    assert(forest@.nodes[node.exec_node as int] == forest.nodes@[node.exec_node as int]@);
    let children = child_ids(&forest.nodes[node.exec_node as usize].kind);
    if children.len() != node.children.len() {
        return Some(
            StaticImportError::ChildCount {
                source: x,
                actual: node.children.len(),
                expected: children.len(),
            },
        );
    }
    let n: usize = children.len();
    let mut i: usize = 0;
    while i < n
        invariant
            i <= n == children@.len() == node.children@.len(),
            x < package@.nodes.len(),
            package@.nodes[x as int] == node@,
            node@.exec_node < forest@.nodes.len(),
            children@ == forest@.nodes[node@.exec_node as int].kind.children(),
            child_fault(package@, x, children@, i as nat) is None,
        decreases n - i,
    {
        let child: u32 = node.children[i];
        proof {
            if child_fault(package@, x, children@, (i + 1) as nat) is Some {
                lemma_child_fault(package@, x, children@, (i + 1) as nat, n as nat);
            }
        }
        if child as usize >= package.nodes.len() {
            return Some(StaticImportError::MissingChild { source: x, child });
        }
        assert(package@.nodes[child as int] == package.nodes@[child as int]@);
        if package.nodes[child as usize].exec_node != children[i].0 {
            return Some(StaticImportError::ChildMismatch { source: x, index: i });
        }
        i += 1;
    }
    None
}

/// A sound source node has all its children.
proof fn lemma_sound_node(forest: Seq<NodeModel>, package: PackageModel, x: u32)
    requires
        x < package.nodes.len(),
        source_fault(forest, package, x) is None,
    ensures
        package.nodes[x as int].exec_node < forest.len(),
        package.nodes[x as int].children.len()
            == forest[package.nodes[x as int].exec_node as int].kind.children().len(),
        forall|j: int|
            0 <= j < package.nodes[x as int].children.len() ==> (
            #[trigger] package.nodes[x as int].children[j]) < package.nodes.len(),
        sound_children(package)[x as int] == package.nodes[x as int].children,
{
    let node = package.nodes[x as int];
    let children = forest[node.exec_node as int].kind.children();
    assert forall|j: int| 0 <= j < node.children.len() implies (#[trigger] node.children[j])
        < package.nodes.len() by {
        lemma_sound_child(package, x, children, j as nat, children.len());
    }
}

proof fn lemma_sound_child(package: PackageModel, x: u32, children: Seq<MastNodeId>, j: nat, k: nat)
    requires
        j < k,
        child_fault(package, x, children, k) is None,
    ensures
        package.nodes[x as int].children[j as int] < package.nodes.len(),
    decreases k,
{
    if j + 1 < k {
        lemma_sound_child(package, x, children, j, (k - 1) as nat);
    }
}

impl PackageDebugInfo {
    fn sound_child_table(&self) -> (children: Vec<Vec<u32>>)
        ensures
            child_lists(children@) == sound_children(self@),
            closed(sound_children(self@)),
    {
        let n: usize = self.nodes.len();
        let mut children: Vec<Vec<u32>> = Vec::new();
        let mut i: usize = 0;
        while i < n
            invariant
                i <= n == self.nodes@.len(),
                children@.len() == i,
                forall|k: int|
                    0 <= k < i ==> (#[trigger] children@[k])@ == sound_children(self@)[k],
            decreases n - i,
        {
            let list = &self.nodes[i].children;
            assert(self@.nodes[i as int].children == list@);
            let mut sound = true;
            let mut j: usize = 0;
            while j < list.len()
                invariant
                    j <= list@.len(),
                    n == self.nodes@.len(),
                    sound <==> forall|k: int| 0 <= k < j ==> (#[trigger] list@[k]) < n,
                decreases list@.len() - j,
            {
                if list[j] as usize >= n {
                    sound = false;
                }
                j += 1;
            }
            if sound {
                children.push(copy_vec(list));
            } else {
                let none: Vec<u32> = Vec::new();
                assert(none@ =~= Seq::<u32>::empty());
                assert(!(forall|k: int|
                    0 <= k < self@.nodes[i as int].children.len() ==> (
                    #[trigger] self@.nodes[i as int].children[k]) < self@.nodes.len())) by {
                    let k = choose|k: int| 0 <= k < list@.len() && !((#[trigger] list@[k]) < n);
                    assert(!(self@.nodes[i as int].children[k] < self@.nodes.len()));
                }
                children.push(none);
            }
            i += 1;
        }
        proof {
            assert(child_lists(children@) =~= sound_children(self@));
            let lists = sound_children(self@);
            assert forall|i: int, j: int| 0 <= i < lists.len() && 0 <= j < lists[i].len() implies (
            #[trigger] lists[i][j]) < lists.len() by {
                assert(self@.nodes[i].children[j] < self@.nodes.len());
            }
        }
        children
    }
}

impl MastForestBuilder {
    /// Copies one node of a package over the copies of its children, with its source rows.
    fn ensure_node_from_statically_linked_source_use(
        &mut self,
        node: &MastNode,
        child_uses: &Vec<MastNodeUse>,
        metadata: StaticSourceMetadata,
    ) -> (res: Result<MastNodeUse, BuildError>)
        requires
            old(self)@.wf(),
            countable(node@.kind),
            node@.digest.wf(),
            child_uses@.len() == node@.kind.children().len(),
            forall|i: int|
                0 <= i < child_uses@.len() ==> old(self)@.has_use(#[trigger] child_uses@[i]),
            metadata@.op_start <= metadata@.op_end,
        ensures
            final(self).registry == old(self).registry,
            match res {
                Ok(u) => {
                    &&& recorded_over(
                        old(self)@,
                        final(self)@,
                        static_draft(node@, child_uses@, metadata@),
                        use_sources(child_uses@),
                        metadata@.op_start,
                        metadata@.op_end,
                        u,
                    )
                    &&& final(self)@.wf()
                    &&& extends(old(self)@, final(self)@)
                    &&& final(self)@.has_use(u)
                },
                Err(e) => spent(final(self)@, e) && record_failed(
                    old(self)@,
                    final(self)@,
                    static_draft(node@, child_uses@, metadata@),
                    e,
                ),
            },
    {
        let mut child_refs: Vec<MastNodeRef> = Vec::new();
        let mut sources: Vec<u32> = Vec::new();
        let mut i: usize = 0;
        while i < child_uses.len()
            invariant
                i <= child_uses@.len(),
                child_refs@.len() == i,
                sources@.len() == i,
                forall|k: int| 0 <= k < i ==> #[trigger] child_refs@[k] == child_uses@[k].node_ref,
                forall|k: int| 0 <= k < i ==> #[trigger] sources@[k] == child_uses@[k].source_ref.0,
            decreases child_uses@.len() - i,
        {
            child_refs.push(child_uses[i].node_ref);
            sources.push(child_uses[i].source_ref.0);
            i += 1;
        }
        let draft = PendingMastNodeDraft {
            digest: node.digest,
            kind: PendingMastNodeKind::from_node(node),
            child_refs,
            asm_ops: metadata.asm_ops,
            debug_vars: metadata.debug_vars,
            inline_calls: metadata.inline_calls,
            call_frames: metadata.call_frames,
            functions: metadata.functions,
        };
        proof {
            assert(draft@.child_refs =~= static_draft(node@, child_uses@, metadata@).child_refs);
            assert(sources@ =~= use_sources(child_uses@));
            lemma_arity(node@.kind);
            assert forall|k: int| 0 <= k < draft@.child_refs.len() implies (
            #[trigger] draft@.child_refs[k]).0 < self@.nodes.len() by {
                assert(self@.has_use(child_uses@[k]));
            }
            assert forall|k: int| 0 <= k < sources@.len() implies (#[trigger] sources@[k])
                < self@.graph.nodes.len() by {
                assert(self@.has_use(child_uses@[k]));
            }
        }
        self.intern_pending_node_over_range(&draft, &sources, metadata.op_start, metadata.op_end)
    }

    /// Copies the source node that a walk leaves next.
    fn copy_source_node(
        &mut self,
        forest: &MastForest,
        package: &PackageDebugInfo,
        tables: &DebugInfoTableRemapping,
        uses: &mut Vec<Option<MastNodeUse>>,
        x: u32,
        Ghost(b): Ghost<BuilderModel>,
        Ghost(order): Ghost<Seq<u32>>,
        Ghost(k): Ghost<int>,
    ) -> (res: Result<(), StaticImportError>)
        requires
            old(self)@.wf(),
            extends(b, old(self)@),
            b.wf(),
            frame_kept(b, old(self)@),
            package_ok(forest@.nodes, package@),
            copy_inv(
                b,
                old(self)@,
                forest@.nodes,
                package@,
                tables@,
                old(uses)@,
                order,
                k,
            ),
            k < order.len(),
            order[k] == x,
            x < package@.nodes.len(),
            children_first(sound_children(package@), order),
            source_fault(forest@.nodes, package@, x) is None,
        ensures
            final(self).registry == old(self).registry,
            match res {
                Ok(_) => {
                    &&& final(self)@.wf()
                    &&& extends(b, final(self)@)
                    &&& frame_kept(b, final(self)@)
                    &&& source_metadata(forest@.nodes, package@, tables@, x) is Ok
                    &&& copy_inv(
                        b,
                        final(self)@,
                        forest@.nodes,
                        package@,
                        tables@,
                        final(uses)@,
                        order,
                        k + 1,
                    )
                },
                Err(StaticImportError::Missing(missing)) => {
                    &&& source_metadata(forest@.nodes, package@, tables@, x) == Err::<
                        MetadataModel,
                        MissingIndex,
                    >(missing)
                    &&& *final(self) == *old(self)
                },
                Err(e) => {
                    let node = package@.nodes[x as int];
                    &&& source_metadata(forest@.nodes, package@, tables@, x) is Ok
                    &&& e matches StaticImportError::Build(e) && spent(final(self)@, e)
                        && record_failed(
                        old(self)@,
                        final(self)@,
                        static_draft(
                            forest@.nodes[node.exec_node as int],
                            children_uses(node, old(uses)@),
                            source_metadata(forest@.nodes, package@, tables@, x)->Ok_0,
                        ),
                        e,
                    )
                },
            },
    {
        let ghost lists = sound_children(package@);
        proof {
            reveal(copy_inv);
            lemma_sound_node(forest@.nodes, package@, x);
            assert(range_ok(package@.nodes[x as int]));
        }
        let row = &package.nodes[x as usize];
        assert(package@.nodes[x as int] == row@);
        let node = &forest.nodes[row.exec_node as usize];
        assert(forest@.nodes[row.exec_node as int] == node@);
        assert(countable(forest@.nodes[row.exec_node as int].kind));
        let child_uses = gather_uses(
            &row.children,
            uses,
            Ghost(self@),
            Ghost(lists),
            Ghost(order),
            Ghost(k),
            Ghost(b),
            Ghost(forest@.nodes),
            Ghost(package@),
            Ghost(tables@),
        );
        assert(child_uses@ =~= children_uses(package@.nodes[x as int], uses@));
        let metadata = match package_source_metadata(forest, package, tables, x) {
            Ok(metadata) => metadata,
            Err(e) => {
                return Err(StaticImportError::Missing(e));
            },
        };
        let ghost model = metadata@;
        let ghost before = self@;
        let u = match self.ensure_node_from_statically_linked_source_use(
            node,
            &child_uses,
            metadata,
        ) {
            Ok(u) => u,
            Err(e) => {
                return Err(StaticImportError::Build(e));
            },
        };
        let ghost earlier = uses@;
        uses.set(x as usize, Some(u));
        proof {
            lemma_extends_trans(b, before, self@);
            lemma_recorded_frame(
                before,
                self@,
                static_draft(node@, child_uses@, model),
                use_sources(child_uses@),
                model.op_start,
                model.op_end,
                u,
            );
            lemma_front_copied(
                b,
                before,
                self@,
                forest@.nodes,
                package@,
                tables@,
                earlier,
                uses@,
                order,
                k,
                model,
                child_uses@,
                u,
            );
            let front = order.take(k);
            assert(!front.contains(x)) by {
                if front.contains(x) {
                    let q = choose|q: int| 0 <= q < front.len() && front[q] == x;
                    assert(order[q] == order[k]);
                }
            }
            lemma_step_copied(
                b,
                before,
                self@,
                forest@.nodes,
                package@,
                tables@,
                earlier,
                uses@,
                front,
                x,
                model,
                child_uses@,
                u,
            );
            assert(front.push(x) =~= order.take(k + 1));
        }
        Ok(())
    }

    /// Copies a source node of a package and everything below it: each node once, children first,
    /// with its rows moved to the builder's tables.
    ///
    /// Refuses a source graph that does not follow the package's forest or leads back to itself,
    /// and rows over missing table entries.
    #[verifier::rlimit(40)]
    pub fn copy_package_debug_source_subtree_ref(
        &mut self,
        forest: &MastForest,
        package: &PackageDebugInfo,
        tables: &DebugInfoTableRemapping,
        root: u32,
    ) -> (res: Result<MastNodeUse, StaticImportError>)
        requires
            old(self)@.wf(),
            package_ok(forest@.nodes, package@),
            root < package@.nodes.len(),
        ensures
            final(self).registry == old(self).registry,
            match res {
                Ok(u) => {
                    &&& !has_cycle(sound_children(package@), seq![root])
                    &&& final(self)@.wf()
                    &&& extends(old(self)@, final(self)@)
                    &&& frame_kept(old(self)@, final(self)@)
                    &&& final(self)@.has_use(u)
                    &&& exists|uses: Seq<Option<MastNodeUse>>| #[trigger]
                        copied_tree(
                            old(self)@,
                            final(self)@,
                            forest@.nodes,
                            package@,
                            tables@,
                            uses,
                            root,
                        ) && uses[root as int] == Some(u)
                },
                Err(e) => package_failed(
                    old(self)@,
                    forest@.nodes,
                    package@,
                    tables@,
                    root,
                    final(self)@,
                    e,
                ),
            },
    {
        let ghost b = self@;
        let ghost lists = sound_children(package@);
        let children = package.sound_child_table();
        let mut roots: Vec<u32> = Vec::new();
        roots.push(root);
        assert(roots@ =~= seq![root]);
        assert(child_lists(children@).len() == children@.len());
        let walk = walk(&children, &roots);
        let ghost order = walk.order@;
        let ghost steps = walk.steps@;
        proof {
            assert(is_walk(lists, seq![root], steps, order, walk.cyclic));
            lemma_extends_refl(b);
        }
        let n: usize = package.nodes.len();
        let mut uses: Vec<Option<MastNodeUse>> = Vec::new();
        let mut k: usize = 0;
        while k < n
            invariant
                k <= n,
                uses@.len() == k,
                forall|i: int| 0 <= i < k ==> #[trigger] uses@[i] is None,
            decreases n - k,
        {
            uses.push(None);
            k += 1;
        }
        let mut j: usize = 0;
        let ghost mut k: int = 0;
        proof {
            assert(steps.take(0) =~= Seq::empty());
            lemma_chain_starts(b, forest@.nodes, package@, tables@, uses@, order.take(0));
            assert(order.take(0) =~= Seq::empty());
            reveal(copy_inv);
        }
        while j < walk.steps.len()
            invariant
                j <= walk.steps@.len(),
                steps == walk.steps@,
                order == walk.order@,
                order == left_in(steps),
                n == package@.nodes.len() == uses@.len() == lists.len(),
                lists == sound_children(package@),
                b == old(self)@,
                b.wf(),
                self.registry == old(self).registry,
                self@.wf(),
                extends(b, self@),
                frame_kept(b, self@),
                package_ok(forest@.nodes, package@),
                is_walk(lists, seq![root], steps, order, walk.cyclic),
                children_first(lists, order),
                steps_reach(lists, seq![root], steps),
                k == left_in(steps.take(j as int)).len(),
                0 <= k <= order.len(),
                left_in(steps.take(j as int)) == order.take(k),
                copy_inv(
                    b,
                    self@,
                    forest@.nodes,
                    package@,
                    tables@,
                    uses@,
                    order,
                    k,
                ),
                forall|i: int|
                    0 <= i < j ==> step_fault(
                        forest@.nodes,
                        package@,
                        tables@,
                        #[trigger] steps[i],
                    ) is None,
            decreases walk.steps@.len() - j,
        {
            let (x, leaves): (u32, bool) = match walk.steps[j] {
                WalkStep::Enter(x) => (x, false),
                WalkStep::Leave(x) => (x, true),
            };
            let ghost stop = CopyStop {
                steps,
                order,
                cyclic: walk.cyclic,
                j: j as nat,
                uses: uses@,
                mid: self@,
            };
            assert(node_of(steps[j as int]) == x);
            proof {
                reveal(copy_inv);
                assert(steps.take(j + 1).drop_last() =~= steps.take(j as int));
                lemma_left_prefix(steps, j + 1);
            }
            if let Some(fault) = check_source_node(forest, package, x) {
                proof {
                    lemma_copy_stopped(
                        b,
                        forest@.nodes,
                        package@,
                        tables@,
                        root,
                        stop,
                        self@,
                        fault,
                    );
                }
                return Err(fault);
            }
            if leaves {
                proof {
                    let front = left_in(steps.take(j + 1));
                    assert(front == left_in(steps.take(j as int)).push(x));
                    assert(front[k] == x);
                    assert(order.take(front.len() as int)[k] == order[k]);
                }
                match self.copy_source_node(
                    forest,
                    package,
                    tables,
                    &mut uses,
                    x,
                    Ghost(b),
                    Ghost(order),
                    Ghost(k),
                ) {
                    Ok(_) => {},
                    Err(e) => {
                        proof {
                            lemma_copy_stopped(
                                b,
                                forest@.nodes,
                                package@,
                                tables@,
                                root,
                                stop,
                                self@,
                                e,
                            );
                        }
                        return Err(e);
                    },
                }
                proof {
                    k = k + 1;
                }
            }
            j += 1;
        }
        proof {
            assert(steps.take(j as int) =~= steps);
            reveal(copy_inv);
        }
        if walk.cyclic {
            proof {
                let stop = CopyStop {
                    steps,
                    order,
                    cyclic: true,
                    j: j as nat,
                    uses: uses@,
                    mid: self@,
                };
                lemma_copy_stopped(
                    b,
                    forest@.nodes,
                    package@,
                    tables@,
                    root,
                    stop,
                    self@,
                    StaticImportError::Build(BuildError::CyclicSources),
                );
            }
            return Err(StaticImportError::Build(BuildError::CyclicSources));
        }
        proof {
            law_post_order_acyclic(lists, seq![root], order);
            assert(seq![root][0] == root);
            assert(order.contains(seq![root][0]));
            let p = choose|p: int| 0 <= p < order.len() && order[p] == root;
            assert(copied_as(
                b,
                self@,
                forest@.nodes,
                package@,
                tables@,
                uses@,
                order[p],
            ));
            lemma_tree_copied(b, self@, forest@.nodes, package@, tables@, uses@, root, order);
            reveal(copied_as);
        }
        match uses[root as usize] {
            Some(u) => Ok(u),
            None => {
                assert(false);
                Err(StaticImportError::MissingSourceNode { source: root })
            },
        }
    }
}

/// What holds of the first `k` source nodes of an order, which were copied.
#[verifier::opaque]
spec fn copy_inv(
    b: BuilderModel,
    now: BuilderModel,
    forest: Seq<NodeModel>,
    package: PackageModel,
    tables: TablesModel,
    uses: Seq<Option<MastNodeUse>>,
    order: Seq<u32>,
    k: int,
) -> bool {
    &&& 0 <= k <= order.len()
    &&& uses.len() == package.nodes.len()
    &&& copied_chain(b, now, forest, package, tables, uses, order.take(k))
    &&& forall|i: int|
        0 <= i < k ==> copied_as(b, now, forest, package, tables, uses, #[trigger] order[i])
            && source_fault(forest, package, order[i]) is None
    &&& forall|i: int|
        0 <= i < uses.len() && (#[trigger] uses[i]) is Some ==> order.take(k).contains(i as u32)
}

/// What is wrong at a step of a walk over a package: a source node that does not follow the forest
/// when it is entered, or one that has rows over missing entries when it is left.
pub open spec fn step_fault(
    forest: Seq<NodeModel>,
    package: PackageModel,
    tables: TablesModel,
    step: WalkStep,
) -> Option<StaticImportError> {
    match source_fault(forest, package, node_of(step)) {
        Some(fault) => Some(fault),
        None => match step {
            WalkStep::Enter(_) => None,
            WalkStep::Leave(x) => match source_metadata(forest, package, tables, x) {
                Err(missing) => Some(StaticImportError::Missing(missing)),
                Ok(_) => None,
            },
        },
    }
}

/// Where copying a package stopped: before step `j` of a walk, in a state in which the nodes that
/// were left before were copied.
pub ghost struct CopyStop {
    pub steps: Seq<WalkStep>,
    pub order: Seq<u32>,
    pub cyclic: bool,
    pub j: nat,
    pub uses: Seq<Option<MastNodeUse>>,
    pub mid: BuilderModel,
}

/// Copying a package stopped at the first fault on the way, where the forest could not be built
/// further, or where the source graph leads back to itself.
pub open spec fn copy_stopped(
    b: BuilderModel,
    forest: Seq<NodeModel>,
    package: PackageModel,
    tables: TablesModel,
    root: u32,
    stop: CopyStop,
    after: BuilderModel,
    e: StaticImportError,
) -> bool {
    &&& is_walk(sound_children(package), seq![root], stop.steps, stop.order, stop.cyclic)
    &&& stop.j <= stop.steps.len()
    &&& forall|i: int|
        0 <= i < stop.j ==> step_fault(forest, package, tables, #[trigger] stop.steps[i]) is None
    &&& copied_chain(
        b,
        stop.mid,
        forest,
        package,
        tables,
        stop.uses,
        left_in(stop.steps.take(stop.j as int)),
    )
    &&& if stop.j == stop.steps.len() {
        &&& stop.cyclic
        &&& e == StaticImportError::Build(BuildError::CyclicSources)
        &&& after == stop.mid
    } else {
        let step = stop.steps[stop.j as int];
        match step_fault(forest, package, tables, step) {
            Some(fault) => e == fault && after == stop.mid,
            None => {
                let node = package.nodes[node_of(step) as int];
                &&& step is Leave
                &&& e matches StaticImportError::Build(e) && spent(after, e) && record_failed(
                    stop.mid,
                    after,
                    static_draft(
                        forest[node.exec_node as int],
                        children_uses(node, stop.uses),
                        source_metadata(forest, package, tables, node_of(step))->Ok_0,
                    ),
                    e,
                )
            },
        }
    }
}

/// Why a package cannot be copied.
#[verifier::opaque]
pub open spec fn package_failed(
    b: BuilderModel,
    forest: Seq<NodeModel>,
    package: PackageModel,
    tables: TablesModel,
    root: u32,
    after: BuilderModel,
    e: StaticImportError,
) -> bool {
    !(e is Tables) && exists|stop: CopyStop| #[trigger]
        copy_stopped(b, forest, package, tables, root, stop, after, e)
}

proof fn lemma_copy_stopped(
    b: BuilderModel,
    forest: Seq<NodeModel>,
    package: PackageModel,
    tables: TablesModel,
    root: u32,
    stop: CopyStop,
    after: BuilderModel,
    e: StaticImportError,
)
    requires
        copy_stopped(b, forest, package, tables, root, stop, after, e),
    ensures
        package_failed(b, forest, package, tables, root, after, e),
{
    reveal(package_failed);
    if stop.j < stop.steps.len() {
        lemma_fault_kind(forest, package, node_of(stop.steps[stop.j as int]));
    }
}

/// One more source node of an order was copied.
proof fn lemma_front_copied(
    b: BuilderModel,
    before: BuilderModel,
    after: BuilderModel,
    forest: Seq<NodeModel>,
    package: PackageModel,
    tables: TablesModel,
    earlier: Seq<Option<MastNodeUse>>,
    uses: Seq<Option<MastNodeUse>>,
    order: Seq<u32>,
    k: int,
    metadata: MetadataModel,
    child_uses: Seq<MastNodeUse>,
    u: MastNodeUse,
)
    requires
        0 <= k < order.len(),
        children_first(sound_children(package), order),
        forall|i: int| 0 <= i < k ==> (#[trigger] order[i]) < earlier.len(),
        forall|i: int|
            0 <= i < k ==> copied_as(
                b,
                before,
                forest,
                package,
                tables,
                earlier,
                #[trigger] order[i],
            ),
        forall|i: int|
            0 <= i < earlier.len() && (#[trigger] earlier[i]) is Some ==> order.take(k).contains(
                i as u32,
            ),
        before.wf(),
        after.wf(),
        after.has_use(u),
        extends(b, before),
        extends(before, after),
        order[k] < earlier.len(),
        earlier.len() == package.nodes.len(),
        uses == earlier.update(order[k] as int, Some(u)),
        source_metadata(forest, package, tables, order[k]) == Ok::<MetadataModel, MissingIndex>(
            metadata,
        ),
        forall|j: int|
            0 <= j < package.nodes[order[k] as int].children.len() ==> (
            #[trigger] package.nodes[order[k] as int].children[j]) < earlier.len()
                && earlier[package.nodes[order[k] as int].children[j] as int] is Some,
        child_uses == children_uses(package.nodes[order[k] as int], earlier),
        recorded_over(
            before,
            after,
            static_draft(
                forest[package.nodes[order[k] as int].exec_node as int],
                child_uses,
                metadata,
            ),
            use_sources(child_uses),
            metadata.op_start,
            metadata.op_end,
            u,
        ),
    ensures
        forall|i: int|
            0 <= i < k + 1 ==> copied_as(
                b,
                after,
                forest,
                package,
                tables,
                uses,
                #[trigger] order[i],
            ),
        forall|i: int|
            0 <= i < uses.len() && (#[trigger] uses[i]) is Some ==> order.take(k + 1).contains(
                i as u32,
            ),
{
    let x = order[k];
    let front = order.take(k);
    let next = order.take(k + 1);
    assert(earlier[x as int] is None) by {
        if front.contains(x) {
            let q = choose|q: int| 0 <= q < front.len() && front[q] == x;
            assert(order[q] == order[k]);
        }
        assert(x as int as u32 == x);
    }
    lemma_use_copied(
        b,
        before,
        after,
        forest,
        package,
        tables,
        earlier,
        uses,
        x,
        metadata,
        child_uses,
        u,
    );
    assert forall|i: int| 0 <= i < k + 1 implies copied_as(
        b,
        after,
        forest,
        package,
        tables,
        uses,
        #[trigger] order[i],
    ) by {
        if i < k {
            lemma_copied_stays(
                b,
                before,
                after,
                forest,
                package,
                tables,
                earlier,
                uses,
                order[i],
            );
        }
    }
    assert forall|i: int| 0 <= i < uses.len() && (#[trigger] uses[i]) is Some implies next.contains(
        i as u32,
    ) by {
        if i == x {
            assert(next[k] == x);
        } else {
            assert(earlier[i] is Some);
            let q = choose|q: int| 0 <= q < front.len() && front[q] == i as u32;
            assert(next[q] == i as u32);
        }
    }
}

/// Everything below a source node follows the code, and was copied, in the order in which a walk
/// leaves it. Nothing else was done.
pub open spec fn copied_tree(
    b: BuilderModel,
    after: BuilderModel,
    forest: Seq<NodeModel>,
    package: PackageModel,
    tables: TablesModel,
    uses: Seq<Option<MastNodeUse>>,
    root: u32,
) -> bool {
    &&& uses.len() == package.nodes.len()
    &&& exists|order: Seq<u32>| #[trigger]
        copied_chain(b, after, forest, package, tables, uses, order) && is_left_order(
            sound_children(package),
            seq![root],
            order,
        ) && is_post_order(sound_children(package), seq![root], order)
    &&& forall|x: u32|
        reaches(sound_children(package), seq![root], x) ==> #[trigger] copied_as(
            b,
            after,
            forest,
            package,
            tables,
            uses,
            x,
        ) && source_fault(forest, package, x) is None
}

/// The source node that was just recorded extends the chain.
proof fn lemma_step_copied(
    b: BuilderModel,
    before: BuilderModel,
    after: BuilderModel,
    forest: Seq<NodeModel>,
    package: PackageModel,
    tables: TablesModel,
    earlier: Seq<Option<MastNodeUse>>,
    uses: Seq<Option<MastNodeUse>>,
    order: Seq<u32>,
    x: u32,
    metadata: MetadataModel,
    child_uses: Seq<MastNodeUse>,
    u: MastNodeUse,
)
    requires
        copied_chain(b, before, forest, package, tables, earlier, order),
        before.wf(),
        after.wf(),
        x < earlier.len(),
        earlier.len() == package.nodes.len(),
        !order.contains(x),
        forall|i: int|
            0 <= i < earlier.len() && (#[trigger] earlier[i]) is Some ==> order.contains(i as u32),
        uses == earlier.update(x as int, Some(u)),
        source_metadata(forest, package, tables, x) == Ok::<MetadataModel, MissingIndex>(metadata),
        forall|j: int|
            0 <= j < package.nodes[x as int].children.len() ==> (
            #[trigger] package.nodes[x as int].children[j]) < earlier.len()
                && earlier[package.nodes[x as int].children[j] as int] is Some,
        child_uses == children_uses(package.nodes[x as int], earlier),
        recorded_over(
            before,
            after,
            static_draft(
                forest[package.nodes[x as int].exec_node as int],
                child_uses,
                metadata,
            ),
            use_sources(child_uses),
            metadata.op_start,
            metadata.op_end,
            u,
        ),
    ensures
        copied_chain(b, after, forest, package, tables, uses, order.push(x)),
{
    let node = package.nodes[x as int];
    assert(x as int as u32 == x);
    assert(earlier[x as int] is None);
    assert forall|j: int| 0 <= j < node.children.len() implies (#[trigger] node.children[j])
        < uses.len() && uses[node.children[j] as int] is Some && uses[node.children[j] as int]
        == earlier[node.children[j] as int] by {
        assert(earlier[node.children[j] as int] is Some);
    }
    assert(children_uses(node, uses) =~= child_uses);
    lemma_chain_grows(b, before, after, forest, package, tables, earlier, uses, order, x);
}

/// Everything in the order of a walk was copied.
proof fn lemma_tree_copied(
    b: BuilderModel,
    after: BuilderModel,
    forest: Seq<NodeModel>,
    package: PackageModel,
    tables: TablesModel,
    uses: Seq<Option<MastNodeUse>>,
    root: u32,
    order: Seq<u32>,
)
    requires
        uses.len() == package.nodes.len(),
        is_post_order(sound_children(package), seq![root], order),
        is_left_order(sound_children(package), seq![root], order),
        copied_chain(b, after, forest, package, tables, uses, order),
        forall|i: int|
            0 <= i < order.len() ==> copied_as(
                b,
                after,
                forest,
                package,
                tables,
                uses,
                #[trigger] order[i],
            ) && source_fault(forest, package, order[i]) is None,
    ensures
        copied_tree(b, after, forest, package, tables, uses, root),
{
    let lists = sound_children(package);
    assert forall|x: u32| reaches(lists, seq![root], x) implies #[trigger] copied_as(
        b,
        after,
        forest,
        package,
        tables,
        uses,
        x,
    ) && source_fault(forest, package, x) is None by {
        law_post_order_complete(lists, seq![root], order, x);
        let q = choose|q: int| 0 <= q < order.len() && order[q] == x;
        assert(copied_as(b, after, forest, package, tables, uses, order[q]));
    }
}

/// A fault of a source node is none of building or of tables.
proof fn lemma_fault_kind(forest: Seq<NodeModel>, package: PackageModel, x: u32)
    ensures
        source_fault(forest, package, x) is Some ==> !(source_fault(
            forest,
            package,
            x,
        )->0 is Build) && !(source_fault(forest, package, x)->0 is Missing) && !(source_fault(
            forest,
            package,
            x,
        )->0 is Tables),
{
    let node = package.nodes[x as int];
    if node.exec_node < forest.len() {
        let children = forest[node.exec_node as int].kind.children();
        lemma_child_fault_kind(package, x, children, children.len());
    }
}

proof fn lemma_child_fault_kind(package: PackageModel, x: u32, children: Seq<MastNodeId>, k: nat)
    ensures
        child_fault(package, x, children, k) is Some ==> !(child_fault(
            package,
            x,
            children,
            k,
        )->0 is Build) && !(child_fault(package, x, children, k)->0 is Missing) && !(child_fault(
            package,
            x,
            children,
            k,
        )->0 is Tables),
    decreases k,
{
    if k > 0 {
        lemma_child_fault_kind(package, x, children, (k - 1) as nat);
    }
}

proof fn lemma_use_copied(
    b: BuilderModel,
    before: BuilderModel,
    after: BuilderModel,
    forest: Seq<NodeModel>,
    package: PackageModel,
    tables: TablesModel,
    earlier: Seq<Option<MastNodeUse>>,
    uses: Seq<Option<MastNodeUse>>,
    x: u32,
    metadata: MetadataModel,
    child_uses: Seq<MastNodeUse>,
    u: MastNodeUse,
)
    requires
        before.wf(),
        after.wf(),
        after.has_use(u),
        extends(b, before),
        x < earlier.len(),
        earlier.len() == package.nodes.len(),
        earlier[x as int] is None,
        uses == earlier.update(x as int, Some(u)),
        source_metadata(forest, package, tables, x) == Ok::<MetadataModel, MissingIndex>(metadata),
        forall|j: int|
            0 <= j < package.nodes[x as int].children.len() ==> (
            #[trigger] package.nodes[x as int].children[j]) < earlier.len()
                && earlier[package.nodes[x as int].children[j] as int] is Some,
        child_uses == children_uses(package.nodes[x as int], earlier),
        recorded_over(
            before,
            after,
            static_draft(
                forest[package.nodes[x as int].exec_node as int],
                child_uses,
                metadata,
            ),
            use_sources(child_uses),
            metadata.op_start,
            metadata.op_end,
            u,
        ),
    ensures
        copied_as(b, after, forest, package, tables, uses, x),
{
    reveal(copied_as);
    let node = package.nodes[x as int];
    lemma_extends_refl(after);
    assert forall|j: int| 0 <= j < node.children.len() implies (#[trigger] node.children[j])
        < uses.len() && uses[node.children[j] as int] is Some && uses[node.children[j] as int]
        == earlier[node.children[j] as int] by {
        assert(earlier[node.children[j] as int] is Some);
    }
    assert(children_uses(node, uses) =~= child_uses);
    assert(copied_between(
        before,
        after,
        static_draft(forest[node.exec_node as int], children_uses(node, uses), metadata),
        use_sources(children_uses(node, uses)),
        metadata,
        uses[x as int]->0,
    ));
}

/// The uses that the children of a node were copied as.
fn gather_uses(
    children: &Vec<u32>,
    uses: &Vec<Option<MastNodeUse>>,
    Ghost(now): Ghost<BuilderModel>,
    Ghost(lists): Ghost<Seq<Seq<u32>>>,
    Ghost(order): Ghost<Seq<u32>>,
    Ghost(k): Ghost<int>,
    Ghost(b): Ghost<BuilderModel>,
    Ghost(forest): Ghost<Seq<NodeModel>>,
    Ghost(package): Ghost<PackageModel>,
    Ghost(tables): Ghost<TablesModel>,
) -> (child_uses: Vec<MastNodeUse>)
    requires
        0 <= k < order.len(),
        uses@.len() == lists.len(),
        children_first(lists, order),
        lists[order[k] as int] == children@,
        forall|i: int|
            0 <= i < k ==> copied_as(
                b,
                now,
                forest,
                package,
                tables,
                uses@,
                #[trigger] order[i],
            ),
    ensures
        child_uses@.len() == children@.len(),
        forall|j: int|
            0 <= j < children@.len() ==> (#[trigger] children@[j]) < uses@.len()
                && uses@[children@[j] as int] is Some,
        forall|j: int|
            0 <= j < children@.len() ==> #[trigger] child_uses@[j] == uses@[children@[j] as int]->0,
        forall|j: int| 0 <= j < child_uses@.len() ==> now.has_use(#[trigger] child_uses@[j]),
{
    let mut child_uses: Vec<MastNodeUse> = Vec::new();
    proof {
        assert forall|j: int| 0 <= j < children@.len() implies (#[trigger] children@[j])
            < uses@.len() && uses@[children@[j] as int] is Some && now.has_use(
            uses@[children@[j] as int]->0,
        ) by {
            assert(order.take(k).contains(lists[order[k] as int][j]));
            reveal(copied_as);
            let front = order.take(k);
            let q = choose|q: int| 0 <= q < front.len() && front[q] == children@[j];
            assert(order[q] == children@[j]);
            assert(order[q] < lists.len());
            assert(copied_as(b, now, forest, package, tables, uses@, order[q]));
        }
    }
    let mut j: usize = 0;
    while j < children.len()
        invariant
            j <= children@.len(),
            forall|j: int|
                0 <= j < children@.len() ==> (#[trigger] children@[j]) < uses@.len()
                    && uses@[children@[j] as int] is Some && now.has_use(
                    uses@[children@[j] as int]->0,
                ),
            child_uses@.len() == j,
            forall|i: int|
                0 <= i < j ==> #[trigger] child_uses@[i] == uses@[children@[i] as int]->0,
        decreases children@.len() - j,
    {
        assert(children@[j as int] < uses@.len());
        match uses[children[j] as usize] {
            Some(u) => child_uses.push(u),
            None => {
                assert(false);
            },
        }
        j += 1;
    }
    proof {
        assert forall|i: int| 0 <= i < child_uses@.len() implies now.has_use(
            #[trigger] child_uses@[i],
        ) by {
            assert(children@[i] < uses@.len());
        }
    }
    child_uses
}

/// A node that was added is the copy of one of the first `k` source nodes of an order.
spec fn added_by(
    uses: Seq<Option<MastNodeUse>>,
    order: Seq<u32>,
    k: int,
    n: int,
) -> bool {
    exists|i: int|
        0 <= i < k && (uses[(#[trigger] order[i]) as int] matches Some(u) && u.node_ref.0 == n)
}

proof fn lemma_added_by(
    forest: Seq<NodeModel>,
    package: PackageModel,
    tables: TablesModel,
    uses: Seq<Option<MastNodeUse>>,
    order: Seq<u32>,
    states: Seq<BuilderModel>,
    k: nat,
)
    requires
        copied_along(forest, package, tables, uses, order, states),
        k <= order.len(),
    ensures
        states[0].nodes.len() <= states[k as int].nodes.len() <= states[0].nodes.len() + k,
        forall|n: int|
            states[0].nodes.len() <= n < states[k as int].nodes.len() ==> #[trigger] added_by(
                uses,
                order,
                k as int,
                n,
            ),
    decreases k,
{
    if k > 0 {
        let i = k - 1;
        lemma_added_by(forest, package, tables, uses, order, states, (k - 1) as nat);
        assert(copied_step(forest, package, tables, uses, order[i], states[i], states[i + 1]));
        let x = order[i];
        let node = package.nodes[x as int];
        let metadata = source_metadata(forest, package, tables, x)->Ok_0;
        lemma_recorded_adds(
            states[i],
            states[i + 1],
            static_draft(forest[node.exec_node as int], children_uses(node, uses), metadata),
            use_sources(children_uses(node, uses)),
            metadata.op_start,
            metadata.op_end,
            uses[x as int]->0,
        );
        assert forall|n: int| states[0].nodes.len() <= n < states[k as int].nodes.len() implies
            #[trigger] added_by(uses, order, k as int, n) by {
            if n < states[i].nodes.len() {
                assert(added_by(uses, order, i, n));
                let j = choose|j: int|
                    0 <= j < i && (uses[(#[trigger] order[j]) as int] matches Some(u)
                        && u.node_ref.0 == n);
                assert(uses[order[j] as int] is Some);
            } else {
                assert(uses[order[i] as int] is Some);
            }
        }
    }
}

/// Linking from a package adds no node but copies of what is below the selected source node.
pub proof fn law_only_what_is_selected_is_copied(
    b: BuilderModel,
    after: BuilderModel,
    forest: Seq<NodeModel>,
    package: PackageModel,
    tables: TablesModel,
    uses: Seq<Option<MastNodeUse>>,
    root: u32,
    n: int,
)
    requires
        copied_tree(b, after, forest, package, tables, uses, root),
        b.nodes.len() <= n < after.nodes.len(),
    ensures
        exists|x: u32| #[trigger]
            reaches(sound_children(package), seq![root], x) && (uses[x as int] matches Some(u)
                && u.node_ref.0 == n),
{
    let lists = sound_children(package);
    let order = choose|order: Seq<u32>| #[trigger]
        copied_chain(b, after, forest, package, tables, uses, order) && is_left_order(
            lists,
            seq![root],
            order,
        ) && is_post_order(lists, seq![root], order);
    reveal(copied_chain);
    let states = choose|states: Seq<BuilderModel>| #[trigger]
        copied_along(forest, package, tables, uses, order, states) && states[0] == b
            && states.last() == after;
    lemma_added_by(forest, package, tables, uses, order, states, order.len());
    assert(added_by(uses, order, order.len() as int, n));
    let i = choose|i: int|
        0 <= i < order.len() && (uses[(#[trigger] order[i]) as int] matches Some(u)
            && u.node_ref.0 == n);
    assert(reaches(lists, seq![root], order[i]));
}

// COPYING A FOREST
// ================================================================================================

/// The children of the nodes of a forest.
pub open spec fn forest_children(forest: Seq<NodeModel>) -> Seq<Seq<u32>> {
    Seq::new(
        forest.len(),
        |i: int|
            Seq::new(forest[i].kind.children().len(), |j: int| forest[i].kind.children()[j].0),
    )
}

/// The refs that the children of a node were copied as.
pub open spec fn children_refs(node: NodeModel, refs: Seq<Option<MastNodeRef>>) -> Seq<
    MastNodeRef,
> {
    Seq::new(node.kind.children().len(), |j: int| refs[node.kind.children()[j].0 as int]->0)
}

/// The occurrences for all refs of a list.
pub open spec fn occurrences_for(graph: GraphModel, refs: Seq<MastNodeRef>) -> Seq<u32> {
    Seq::new(refs.len(), |i: int| occurrence_for(graph, refs, i))
}

/// A node without source rows was recorded from one state to the next.
pub open spec fn bare_between(
    at: BuilderModel,
    next: BuilderModel,
    node: NodeModel,
    child_refs: Seq<MastNodeRef>,
    r: MastNodeRef,
) -> bool {
    &&& at.wf()
    &&& next.wf()
    &&& exists|u: MastNodeUse| #[trigger]
        recorded(
            at,
            next,
            bare_draft(pending_kind(node.kind), node.digest, child_refs),
            occurrences_for(at.graph, child_refs),
            u,
        ) && u.node_ref == r
}

/// Node `x` of a forest was copied as `refs[x]` over the copies of its children, at some point
/// between `b` and `after`.
#[verifier::opaque]
pub open spec fn bare_copied_as(
    b: BuilderModel,
    after: BuilderModel,
    forest: Seq<NodeModel>,
    refs: Seq<Option<MastNodeRef>>,
    x: u32,
) -> bool {
    &&& refs[x as int] is Some
    &&& (refs[x as int] matches Some(r) && r.0 < after.nodes.len())
    &&& forall|j: int|
        0 <= j < forest[x as int].kind.children().len() ==> (
        #[trigger] forest[x as int].kind.children()[j]).0 < refs.len()
            && refs[forest[x as int].kind.children()[j].0 as int] is Some
    &&& exists|at: BuilderModel, next: BuilderModel| #[trigger]
        bare_between(
            at,
            next,
            forest[x as int],
            children_refs(forest[x as int], refs),
            refs[x as int]->0,
        ) && extends(b, at) && extends(next, after)
}

/// Node `x` of a forest was copied from one state to the next, as `refs[x]` over the copies of its
/// children.
pub open spec fn bare_step(
    forest: Seq<NodeModel>,
    refs: Seq<Option<MastNodeRef>>,
    x: u32,
    at: BuilderModel,
    next: BuilderModel,
) -> bool {
    let node = forest[x as int];
    &&& x < refs.len()
    &&& refs[x as int] is Some
    &&& forall|j: int|
        0 <= j < node.kind.children().len() ==> (#[trigger] node.kind.children()[j]).0
            < refs.len() && refs[node.kind.children()[j].0 as int] is Some
    &&& bare_between(at, next, node, children_refs(node, refs), refs[x as int]->0)
}

/// The nodes of an order were copied one after another, each from the state in which the one before
/// it left the builder.
pub open spec fn bare_along(
    forest: Seq<NodeModel>,
    refs: Seq<Option<MastNodeRef>>,
    order: Seq<u32>,
    states: Seq<BuilderModel>,
) -> bool {
    &&& states.len() == order.len() + 1
    &&& forall|i: int|
        0 <= i < order.len() ==> bare_step(
            forest,
            refs,
            #[trigger] order[i],
            states[i],
            states[i + 1],
        )
}

/// The nodes of an order were copied one after another, from `b` to `after`, and nothing else was
/// done.
#[verifier::opaque]
pub open spec fn bare_chain(
    b: BuilderModel,
    after: BuilderModel,
    forest: Seq<NodeModel>,
    refs: Seq<Option<MastNodeRef>>,
    order: Seq<u32>,
) -> bool {
    exists|states: Seq<BuilderModel>| #[trigger]
        bare_along(forest, refs, order, states) && states[0] == b && states.last() == after
}

proof fn lemma_bare_chain_starts(
    b: BuilderModel,
    forest: Seq<NodeModel>,
    refs: Seq<Option<MastNodeRef>>,
    order: Seq<u32>,
)
    requires
        order.len() == 0,
    ensures
        bare_chain(b, b, forest, refs, order),
{
    reveal(bare_chain);
    assert(bare_along(forest, refs, order, seq![b]));
}

/// One more node was copied.
proof fn lemma_bare_chain_grows(
    b: BuilderModel,
    before: BuilderModel,
    after: BuilderModel,
    forest: Seq<NodeModel>,
    earlier: Seq<Option<MastNodeRef>>,
    refs: Seq<Option<MastNodeRef>>,
    order: Seq<u32>,
    x: u32,
    child_refs: Seq<MastNodeRef>,
    r: MastNodeRef,
)
    requires
        bare_chain(b, before, forest, earlier, order),
        x < earlier.len(),
        earlier[x as int] is None,
        refs == earlier.update(x as int, Some(r)),
        forall|j: int|
            0 <= j < forest[x as int].kind.children().len() ==> (
            #[trigger] forest[x as int].kind.children()[j]).0 < earlier.len()
                && earlier[forest[x as int].kind.children()[j].0 as int] is Some,
        child_refs == children_refs(forest[x as int], earlier),
        bare_between(before, after, forest[x as int], child_refs, r),
    ensures
        bare_chain(b, after, forest, refs, order.push(x)),
{
    reveal(bare_chain);
    let states = choose|states: Seq<BuilderModel>| #[trigger]
        bare_along(forest, earlier, order, states) && states[0] == b && states.last() == before;
    let more = states.push(after);
    let longer = order.push(x);
    assert forall|i: int| 0 <= i < longer.len() implies bare_step(
        forest,
        refs,
        #[trigger] longer[i],
        more[i],
        more[i + 1],
    ) by {
        let y = longer[i];
        let node = forest[y as int];
        if i < order.len() {
            assert(y == order[i]);
            assert(bare_step(forest, earlier, y, states[i], states[i + 1]));
        }
        assert forall|j: int| 0 <= j < node.kind.children().len() implies (
        #[trigger] node.kind.children()[j]).0 < refs.len()
            && refs[node.kind.children()[j].0 as int] is Some
            && refs[node.kind.children()[j].0 as int]
            == earlier[node.kind.children()[j].0 as int] by {
            assert(earlier[node.kind.children()[j].0 as int] is Some);
        }
        assert(children_refs(node, refs) =~= children_refs(node, earlier));
    }
    assert(bare_along(forest, refs, longer, more));
}

/// Where copying a forest stopped: at node `k` of an order, in a state in which those before it
/// were copied.
pub ghost struct BareStop {
    pub order: Seq<u32>,
    pub k: nat,
    pub refs: Seq<Option<MastNodeRef>>,
    pub mid: BuilderModel,
}

/// The forest could not be built further.
pub open spec fn bare_stopped(
    b: BuilderModel,
    forest: Seq<NodeModel>,
    root: u32,
    stop: BareStop,
    after: BuilderModel,
    e: BuildError,
) -> bool {
    let node = forest[stop.order[stop.k as int] as int];
    &&& is_left_order(forest_children(forest), seq![root], stop.order)
    &&& stop.k < stop.order.len()
    &&& bare_chain(b, stop.mid, forest, stop.refs, stop.order.take(stop.k as int))
    &&& spent(after, e)
    &&& record_failed(
        stop.mid,
        after,
        bare_draft(pending_kind(node.kind), node.digest, children_refs(node, stop.refs)),
        e,
    )
}

/// Why a forest cannot be copied.
pub open spec fn bare_failed(
    b: BuilderModel,
    forest: Seq<NodeModel>,
    root: u32,
    after: BuilderModel,
    e: BuildError,
) -> bool {
    exists|stop: BareStop| #[trigger] bare_stopped(b, forest, root, stop, after, e)
}

/// Everything below a node of a forest was copied, in the order in which a walk leaves it. Nothing
/// else was done.
pub open spec fn bare_copied_tree(
    b: BuilderModel,
    after: BuilderModel,
    forest: Seq<NodeModel>,
    refs: Seq<Option<MastNodeRef>>,
    root: u32,
) -> bool {
    &&& refs.len() == forest.len()
    &&& exists|order: Seq<u32>| #[trigger]
        bare_chain(b, after, forest, refs, order) && is_left_order(
            forest_children(forest),
            seq![root],
            order,
        ) && is_post_order(forest_children(forest), seq![root], order)
    &&& forall|x: u32|
        reaches(forest_children(forest), seq![root], x) ==> #[trigger] bare_copied_as(
            b,
            after,
            forest,
            refs,
            x,
        )
}

proof fn lemma_bare_copied_stays(
    b: BuilderModel,
    before: BuilderModel,
    after: BuilderModel,
    forest: Seq<NodeModel>,
    refs: Seq<Option<MastNodeRef>>,
    more: Seq<Option<MastNodeRef>>,
    x: u32,
)
    requires
        bare_copied_as(b, before, forest, refs, x),
        before.wf(),
        extends(before, after),
        more.len() == refs.len(),
        forall|i: int|
            0 <= i < refs.len() && (#[trigger] refs[i]) is Some ==> more[i] == refs[i],
        x < refs.len(),
    ensures
        bare_copied_as(b, after, forest, more, x),
{
    reveal(bare_copied_as);
    let node = forest[x as int];
    assert(refs[x as int] is Some);
    assert forall|j: int| 0 <= j < node.kind.children().len() implies (
    #[trigger] node.kind.children()[j]).0 < more.len()
        && more[node.kind.children()[j].0 as int] is Some
        && more[node.kind.children()[j].0 as int] == refs[node.kind.children()[j].0 as int] by {
        assert(refs[node.kind.children()[j].0 as int] is Some);
    }
    assert(children_refs(node, more) =~= children_refs(node, refs));
    let (at, next) = choose|at: BuilderModel, next: BuilderModel| #[trigger]
        bare_between(at, next, node, children_refs(node, refs), refs[x as int]->0) && extends(
            b,
            at,
        ) && extends(next, before);
    lemma_extends_trans(next, before, after);
    assert(bare_between(at, next, node, children_refs(node, more), more[x as int]->0));
}

impl MastForest {
    fn child_table(&self) -> (children: Vec<Vec<u32>>)
        ensures
            child_lists(children@) == forest_children(self@.nodes),
    {
        let mut children: Vec<Vec<u32>> = Vec::new();
        let mut i: usize = 0;
        while i < self.nodes.len()
            invariant
                i <= self.nodes@.len(),
                children@.len() == i,
                forall|k: int|
                    0 <= k < i ==> (#[trigger] children@[k])@ == forest_children(self@.nodes)[k],
            decreases self.nodes@.len() - i,
        {
            assert(self@.nodes[i as int] == self.nodes@[i as int]@);
            let ids = child_ids(&self.nodes[i].kind);
            let mut list: Vec<u32> = Vec::new();
            let mut j: usize = 0;
            while j < ids.len()
                invariant
                    j <= ids@.len(),
                    list@.len() == j,
                    forall|k: int| 0 <= k < j ==> #[trigger] list@[k] == ids@[k].0,
                decreases ids@.len() - j,
            {
                list.push(ids[j].0);
                j += 1;
            }
            assert(list@ =~= forest_children(self@.nodes)[i as int]);
            children.push(list);
            i += 1;
        }
        assert(child_lists(children@) =~= forest_children(self@.nodes));
        children
    }
}

/// The refs that the children of a node were copied as.
fn gather_refs(
    children: &Vec<u32>,
    refs: &Vec<Option<MastNodeRef>>,
    Ghost(now): Ghost<BuilderModel>,
    Ghost(order): Ghost<Seq<u32>>,
    Ghost(k): Ghost<int>,
    Ghost(b): Ghost<BuilderModel>,
    Ghost(forest): Ghost<Seq<NodeModel>>,
) -> (child_refs: Vec<MastNodeRef>)
    requires
        0 <= k < order.len(),
        refs@.len() == forest.len(),
        children_first(forest_children(forest), order),
        forest_children(forest)[order[k] as int] == children@,
        forall|i: int| 0 <= i < k ==> bare_copied_as(b, now, forest, refs@, #[trigger] order[i]),
    ensures
        child_refs@.len() == children@.len(),
        forall|j: int|
            0 <= j < children@.len() ==> (#[trigger] children@[j]) < refs@.len()
                && refs@[children@[j] as int] is Some,
        forall|j: int|
            0 <= j < children@.len() ==> #[trigger] child_refs@[j] == refs@[children@[j] as int]->0,
        forall|j: int| 0 <= j < child_refs@.len() ==> (#[trigger] child_refs@[j]).0
            < now.nodes.len(),
{
    let ghost lists = forest_children(forest);
    let mut child_refs: Vec<MastNodeRef> = Vec::new();
    proof {
        assert forall|j: int| 0 <= j < children@.len() implies (#[trigger] children@[j])
            < refs@.len() && refs@[children@[j] as int] is Some && (
        refs@[children@[j] as int]->0).0 < now.nodes.len() by {
            assert(order.take(k).contains(lists[order[k] as int][j]));
            reveal(bare_copied_as);
            let front = order.take(k);
            let q = choose|q: int| 0 <= q < front.len() && front[q] == children@[j];
            assert(order[q] == children@[j]);
            assert(order[q] < lists.len());
            assert(bare_copied_as(b, now, forest, refs@, order[q]));
        }
    }
    let mut j: usize = 0;
    while j < children.len()
        invariant
            j <= children@.len(),
            forall|j: int|
                0 <= j < children@.len() ==> (#[trigger] children@[j]) < refs@.len()
                    && refs@[children@[j] as int] is Some && (refs@[children@[j] as int]->0).0
                    < now.nodes.len(),
            child_refs@.len() == j,
            forall|i: int|
                0 <= i < j ==> #[trigger] child_refs@[i] == refs@[children@[i] as int]->0,
        decreases children@.len() - j,
    {
        assert(children@[j as int] < refs@.len());
        match refs[children[j] as usize] {
            Some(u) => child_refs.push(u),
            None => {
                assert(false);
            },
        }
        j += 1;
    }
    proof {
        assert forall|i: int| 0 <= i < child_refs@.len() implies (#[trigger] child_refs@[i]).0
            < now.nodes.len() by {
            assert(children@[i] < refs@.len());
        }
    }
    child_refs
}

impl MastForestBuilder {
    /// Copies one node of a forest over the copies of its children, without source rows.
    fn ensure_node_from_statically_linked_source_ref(
        &mut self,
        node: &MastNode,
        child_refs: Vec<MastNodeRef>,
    ) -> (res: Result<MastNodeRef, BuildError>)
        requires
            old(self)@.wf(),
            countable(node@.kind),
            node@.digest.wf(),
            child_refs@.len() == node@.kind.children().len(),
            forall|i: int|
                0 <= i < child_refs@.len() ==> (#[trigger] child_refs@[i]).0
                    < old(self)@.nodes.len(),
        ensures
            final(self).registry == old(self).registry,
            match res {
                Ok(r) => {
                    &&& bare_between(old(self)@, final(self)@, node@, child_refs@, r)
                    &&& final(self)@.wf()
                    &&& extends(old(self)@, final(self)@)
                    &&& r.0 < final(self)@.nodes.len()
                    &&& frame_kept(old(self)@, final(self)@)
                },
                Err(e) => spent(final(self)@, e) && record_failed(
                    old(self)@,
                    final(self)@,
                    bare_draft(pending_kind(node@.kind), node@.digest, child_refs@),
                    e,
                ),
            },
    {
        let ghost list = child_refs@;
        let ghost before = self@;
        let sources = self.source_refs_for_node_ref_occurrences(&child_refs);
        let draft = PendingMastNodeDraft::new(
            PendingMastNodeKind::from_node(node),
            node.digest,
            child_refs,
        );
        proof {
            assert(sources@ =~= occurrences_for(self@.graph, list));
            lemma_arity(node@.kind);
        }
        let ghost model = draft@;
        match self.intern_pending_node_use(&draft, &sources) {
            Ok(u) => {
                proof {
                    lemma_recorded_frame(
                        before,
                        self@,
                        model,
                        sources@,
                        0,
                        crate::builder::draft_op_count(model) as u32,
                        u,
                    );
                }
                Ok(u.node_ref)
            },
            Err(e) => Err(e),
        }
    }

    /// Copies a node of a forest and everything below it, each node once, children first.
    pub fn copy_forest_subtree_ref(&mut self, forest: &MastForest, root: MastNodeId) -> (res: Result<
        MastNodeRef,
        BuildError,
    >)
        requires
            old(self)@.wf(),
            forest@.wf(),
            forall|i: int|
                0 <= i < forest@.nodes.len() ==> countable((#[trigger] forest@.nodes[i]).kind),
            root.0 < forest@.nodes.len(),
        ensures
            final(self).registry == old(self).registry,
            match res {
                Ok(r) => {
                    &&& final(self)@.wf()
                    &&& extends(old(self)@, final(self)@)
                    &&& r.0 < final(self)@.nodes.len()
                    &&& frame_kept(old(self)@, final(self)@)
                    &&& exists|refs: Seq<Option<MastNodeRef>>| #[trigger]
                        bare_copied_tree(
                            old(self)@,
                            final(self)@,
                            forest@.nodes,
                            refs,
                            root.0,
                        ) && refs[root.0 as int] == Some(r)
                },
                Err(e) => bare_failed(old(self)@, forest@.nodes, root.0, final(self)@, e),
            },
    {
        let ghost b = self@;
        let ghost lists = forest_children(forest@.nodes);
        let children = forest.child_table();
        let mut roots: Vec<u32> = Vec::new();
        roots.push(root.0);
        assert(roots@ =~= seq![root.0]);
        proof {
            assert(child_lists(children@).len() == children@.len());
            assert forall|i: int, j: int| 0 <= i < lists.len() && 0 <= j < lists[i].len() implies (
            #[trigger] lists[i][j]) < i by {
                assert(children_below(forest@.nodes[i].kind, i));
                assert(forest@.nodes[i].kind.children()[j].0 < i);
            }
            assert(closed(lists));
            law_descending_acyclic(lists, seq![root.0]);
            lemma_extends_refl(b);
        }
        let order = match post_order(&children, &roots) {
            Some(order) => order,
            None => {
                assert(false);
                return Err(BuildError::CyclicSources);
            },
        };
        let n: usize = forest.nodes.len();
        let mut refs: Vec<Option<MastNodeRef>> = Vec::new();
        let mut k: usize = 0;
        while k < n
            invariant
                k <= n,
                refs@.len() == k,
                forall|i: int| 0 <= i < k ==> #[trigger] refs@[i] is None,
            decreases n - k,
        {
            refs.push(None);
            k += 1;
        }
        proof {
            assert(order@.take(0) =~= Seq::empty());
            lemma_bare_chain_starts(b, forest@.nodes, refs@, order@.take(0));
        }
        let mut k: usize = 0;
        while k < order.len()
            invariant
                k <= order@.len(),
                n == forest@.nodes.len() == refs@.len() == lists.len(),
                lists == forest_children(forest@.nodes),
                child_lists(children@) == lists,
                b.wf(),
                self.registry == old(self).registry,
                self@.wf(),
                extends(b, self@),
                forest@.wf(),
                forall|i: int|
                    0 <= i < forest@.nodes.len() ==> countable((#[trigger] forest@.nodes[i]).kind),
                is_post_order(lists, seq![root.0], order@),
                is_left_order(lists, seq![root.0], order@),
                b == old(self)@,
                frame_kept(b, self@),
                bare_chain(b, self@, forest@.nodes, refs@, order@.take(k as int)),
                forall|i: int|
                    0 <= i < k ==> bare_copied_as(
                        b,
                        self@,
                        forest@.nodes,
                        refs@,
                        #[trigger] order@[i],
                    ),
                forall|i: int|
                    0 <= i < n && (#[trigger] refs@[i]) is Some ==> order@.take(
                        k as int,
                    ).contains(i as u32),
            decreases order@.len() - k,
        {
            let x: u32 = order[k];
            assert(order@[k as int] < lists.len());
            assert(child_lists(children@)[x as int] == children@[x as int]@);
            let node = &forest.nodes[x as usize];
            assert(forest@.nodes[x as int] == node@);
            assert(countable(forest@.nodes[x as int].kind));
            assert(forest@.nodes[x as int].wf());
            let child_refs = gather_refs(
                &children[x as usize],
                &refs,
                Ghost(self@),
                Ghost(order@),
                Ghost(k as int),
                Ghost(b),
                Ghost(forest@.nodes),
            );
            let ghost list = child_refs@;
            proof {
                assert forall|j: int| 0 <= j < node@.kind.children().len() implies (
                #[trigger] node@.kind.children()[j]).0 < refs@.len()
                    && refs@[node@.kind.children()[j].0 as int] is Some by {
                    assert(children@[x as int]@[j] == node@.kind.children()[j].0);
                }
                assert(list =~= children_refs(node@, refs@));
            }
            let ghost before = self@;
            let r = match self.ensure_node_from_statically_linked_source_ref(node, child_refs) {
                Ok(r) => r,
                Err(e) => {
                    proof {
                        let stop = BareStop {
                            order: order@,
                            k: k as nat,
                            refs: refs@,
                            mid: before,
                        };
                        assert(bare_stopped(b, forest@.nodes, root.0, stop, self@, e));
                    }
                    return Err(e);
                },
            };
            let ghost earlier = refs@;
            refs[x as usize] = Some(r);
            proof {
                lemma_extends_trans(b, before, self@);
                assert(earlier[x as int] is None) by {
                    let front = order@.take(k as int);
                    if front.contains(x) {
                        let q = choose|q: int| 0 <= q < front.len() && front[q] == x;
                        assert(order@[q] == order@[k as int]);
                    }
                    assert(x as int as u32 == x);
                }
                lemma_bare_copied(
                    b,
                    before,
                    self@,
                    forest@.nodes,
                    earlier,
                    refs@,
                    x,
                    list,
                    r,
                );
                lemma_bare_chain_grows(
                    b,
                    before,
                    self@,
                    forest@.nodes,
                    earlier,
                    refs@,
                    order@.take(k as int),
                    x,
                    list,
                    r,
                );
                assert(order@.take(k as int).push(x) =~= order@.take(k + 1));
                assert forall|i: int| 0 <= i < k + 1 implies bare_copied_as(
                    b,
                    self@,
                    forest@.nodes,
                    refs@,
                    #[trigger] order@[i],
                ) by {
                    if i < k {
                        assert(order@[i] < lists.len());
                        lemma_bare_copied_stays(
                            b,
                            before,
                            self@,
                            forest@.nodes,
                            earlier,
                            refs@,
                            order@[i],
                        );
                    }
                }
                assert forall|i: int| 0 <= i < n && (#[trigger] refs@[i]) is Some implies order@.take(
                    k + 1,
                ).contains(i as u32) by {
                    let front = order@.take(k as int);
                    let next = order@.take(k + 1);
                    if i == x {
                        assert(next[k as int] == x);
                    } else {
                        assert(earlier[i] is Some);
                        let q = choose|q: int| 0 <= q < front.len() && front[q] == i as u32;
                        assert(next[q] == i as u32);
                    }
                }
            }
            k += 1;
        }
        proof {
            assert(seq![root.0][0] == root.0);
            assert(order@.contains(seq![root.0][0]));
            let p = choose|p: int| 0 <= p < order@.len() && order@[p] == root.0;
            reveal(bare_copied_as);
            assert(bare_copied_as(b, self@, forest@.nodes, refs@, order@[p]));
            assert forall|x: u32| reaches(lists, seq![root.0], x) implies #[trigger] bare_copied_as(
                b,
                self@,
                forest@.nodes,
                refs@,
                x,
            ) by {
                law_post_order_complete(lists, seq![root.0], order@, x);
                let q = choose|q: int| 0 <= q < order@.len() && order@[q] == x;
                assert(bare_copied_as(b, self@, forest@.nodes, refs@, order@[q]));
            }
            assert(order@.take(k as int) =~= order@);
            assert(bare_chain(b, self@, forest@.nodes, refs@, order@));
            assert(bare_copied_tree(b, self@, forest@.nodes, refs@, root.0));
        }
        match refs[root.0 as usize] {
            Some(r) => Ok(r),
            None => {
                assert(false);
                Err(BuildError::CyclicSources)
            },
        }
    }
}

proof fn lemma_bare_copied(
    b: BuilderModel,
    before: BuilderModel,
    after: BuilderModel,
    forest: Seq<NodeModel>,
    earlier: Seq<Option<MastNodeRef>>,
    refs: Seq<Option<MastNodeRef>>,
    x: u32,
    child_refs: Seq<MastNodeRef>,
    r: MastNodeRef,
)
    requires
        after.wf(),
        r.0 < after.nodes.len(),
        extends(b, before),
        x < earlier.len(),
        earlier[x as int] is None,
        refs == earlier.update(x as int, Some(r)),
        forall|j: int|
            0 <= j < forest[x as int].kind.children().len() ==> (
            #[trigger] forest[x as int].kind.children()[j]).0 < earlier.len()
                && earlier[forest[x as int].kind.children()[j].0 as int] is Some,
        child_refs == children_refs(forest[x as int], earlier),
        bare_between(before, after, forest[x as int], child_refs, r),
    ensures
        bare_copied_as(b, after, forest, refs, x),
{
    reveal(bare_copied_as);
    let node = forest[x as int];
    lemma_extends_refl(after);
    assert forall|j: int| 0 <= j < node.kind.children().len() implies (
    #[trigger] node.kind.children()[j]).0 < refs.len()
        && refs[node.kind.children()[j].0 as int] is Some
        && refs[node.kind.children()[j].0 as int] == earlier[node.kind.children()[j].0 as int] by {
        assert(earlier[node.kind.children()[j].0 as int] is Some);
    }
    assert(children_refs(node, refs) =~= child_refs);
    assert(bare_between(before, after, node, children_refs(node, refs), refs[x as int]->0));
}

/// A node that was added is the copy of one of the first `k` nodes of an order.
spec fn bare_added_by(
    refs: Seq<Option<MastNodeRef>>,
    order: Seq<u32>,
    k: int,
    n: int,
) -> bool {
    exists|i: int|
        0 <= i < k && (refs[(#[trigger] order[i]) as int] matches Some(r) && r.0 == n)
}

proof fn lemma_bare_added_by(
    forest: Seq<NodeModel>,
    refs: Seq<Option<MastNodeRef>>,
    order: Seq<u32>,
    states: Seq<BuilderModel>,
    k: nat,
)
    requires
        bare_along(forest, refs, order, states),
        k <= order.len(),
    ensures
        states[0].nodes.len() <= states[k as int].nodes.len() <= states[0].nodes.len() + k,
        forall|n: int|
            states[0].nodes.len() <= n < states[k as int].nodes.len() ==> #[trigger] bare_added_by(
                refs,
                order,
                k as int,
                n,
            ),
    decreases k,
{
    if k > 0 {
        let i = k - 1;
        lemma_bare_added_by(forest, refs, order, states, (k - 1) as nat);
        assert(bare_step(forest, refs, order[i], states[i], states[i + 1]));
        let node = forest[order[i] as int];
        let draft = bare_draft(
            pending_kind(node.kind),
            node.digest,
            children_refs(node, refs),
        );
        let sources = occurrences_for(states[i].graph, children_refs(node, refs));
        let u = choose|u: MastNodeUse| #[trigger]
            recorded(states[i], states[i + 1], draft, sources, u) && u.node_ref
                == refs[order[i] as int]->0;
        lemma_recorded_adds(
            states[i],
            states[i + 1],
            draft,
            sources,
            0,
            crate::builder::draft_op_count(draft) as u32,
            u,
        );
        assert forall|n: int| states[0].nodes.len() <= n < states[k as int].nodes.len() implies
            #[trigger] bare_added_by(refs, order, k as int, n) by {
            if n < states[i].nodes.len() {
                assert(bare_added_by(refs, order, i, n));
                let j = choose|j: int|
                    0 <= j < i && (refs[(#[trigger] order[j]) as int] matches Some(r) && r.0 == n);
                assert(refs[order[j] as int] is Some);
            } else {
                assert(refs[order[i] as int] is Some);
            }
        }
    }
}

/// Linking by digest adds no node but copies of what is below the selected node of the merged
/// forest.
pub proof fn law_only_what_is_selected_is_linked(
    b: BuilderModel,
    after: BuilderModel,
    forest: Seq<NodeModel>,
    refs: Seq<Option<MastNodeRef>>,
    root: u32,
    n: int,
)
    requires
        bare_copied_tree(b, after, forest, refs, root),
        b.nodes.len() <= n < after.nodes.len(),
    ensures
        exists|x: u32| #[trigger]
            reaches(forest_children(forest), seq![root], x) && refs[x as int] == Some(
                MastNodeRef(n as u32),
            ) && n <= u32::MAX,
{
    let lists = forest_children(forest);
    let order = choose|order: Seq<u32>| #[trigger]
        bare_chain(b, after, forest, refs, order) && is_left_order(lists, seq![root], order)
            && is_post_order(lists, seq![root], order);
    reveal(bare_chain);
    let states = choose|states: Seq<BuilderModel>| #[trigger]
        bare_along(forest, refs, order, states) && states[0] == b && states.last() == after;
    lemma_bare_added_by(forest, refs, order, states, order.len());
    assert(bare_added_by(refs, order, order.len() as int, n));
    let i = choose|i: int|
        0 <= i < order.len() && (refs[(#[trigger] order[i]) as int] matches Some(r) && r.0 == n);
    assert(reaches(lists, seq![root], order[i]));
}

// LINKING
// ================================================================================================

/// The libraries that are linked statically: their forests, merged and each for itself, and their
/// debug information.
pub struct StaticLibraries {
    pub merged: MastForest,
    pub roots: StaticRoots,
    pub forests: Vec<MastForest>,
    pub debug_infos: Vec<Option<PackageDebugInfo>>,
}

/// Where the code of a procedure comes from.
#[derive(Clone, Copy, PartialEq, Eq, Structural, Debug)]
pub enum LinkPlan {
    /// From a library with debug information, starting at a source node.
    Package { library: usize, source: u32 },
    /// From the merged forest.
    Forest { root_id: MastNodeId },
    /// From elsewhere, when the code runs.
    Elsewhere,
}

/// What is known of where a procedure comes from.
#[derive(Clone, Copy, PartialEq, Eq, Structural, Debug)]
pub struct LinkHint {
    pub commitment: Option<Word>,
    pub root: Option<MastNodeId>,
    pub source: Option<u32>,
}

impl StaticLibraries {
    pub open spec fn wf(self) -> bool {
        &&& self.merged@.wf()
        &&& forall|i: int|
            0 <= i < self.merged@.nodes.len() ==> countable(
                (#[trigger] self.merged@.nodes[i]).kind,
            )
        &&& self.roots.root_maps@.len() == self.roots.libraries@.len()
        &&& self.forests@.len() == self.roots.libraries@.len()
        &&& self.debug_infos@.len() == self.roots.libraries@.len()
        &&& forall|i: int|
            0 <= i < self.debug_infos@.len() ==> match #[trigger] self.debug_infos@[i] {
                Some(package) => package_ok(self.forests@[i]@.nodes, package@),
                None => true,
            }
    }

    /// The root that a hint leads to; without a usable hint, any root with the digest.
    pub open spec fn linked_root(self, hint: LinkHint, mast_root: Word) -> Option<
        (MastNodeId, Option<usize>),
    > {
        let exact = if hint.commitment is Some && hint.root is Some {
            looked_up(
                self.roots,
                self.merged@,
                hint.commitment->0,
                hint.root->0,
                mast_root,
                self.roots.libraries@.len(),
            )
        } else {
            StaticRootLookup::Missing
        };
        match exact {
            StaticRootLookup::Found { library, root_id } => Some((root_id, Some(library))),
            _ => match root_with_digest(self.merged@, mast_root, self.merged@.roots.len()) {
                Some(root_id) => Some((root_id, None)),
                None => None,
            },
        }
    }

    /// The source node to start at in a library: the hinted one, or the only one that is there.
    pub open spec fn linked_source(self, library: int, hint: LinkHint) -> Result<
        Option<u32>,
        StaticImportError,
    > {
        let package = self.debug_infos@[library]->0@;
        let exec_node = (hint.root->0).0;
        let start = match hint.source {
            Some(source) => Ok(Some(source)),
            None => {
                let found = source_roots_of(package, exec_node, package.roots.len());
                if found.len() == 0 {
                    Ok(None)
                } else if found.len() == 1 {
                    Ok(Some(found[0]))
                } else {
                    Err(StaticImportError::AmbiguousSourceRoot { exec_node })
                }
            },
        };
        match start {
            Ok(Some(source)) => if source >= package.nodes.len() {
                Err(StaticImportError::MissingSourceNode { source })
            } else if package.nodes[source as int].exec_node != exec_node {
                Err(
                    StaticImportError::SourceRootMismatch {
                        source,
                        actual: package.nodes[source as int].exec_node,
                        expected: exec_node,
                    },
                )
            } else {
                Ok(Some(source))
            },
            other => other,
        }
    }

    /// Where the code of a procedure comes from.
    pub open spec fn link_plan(self, hint: LinkHint, mast_root: Word) -> Result<
        LinkPlan,
        StaticImportError,
    > {
        match self.linked_root(hint, mast_root) {
            None => Ok(LinkPlan::Elsewhere),
            Some((root_id, None)) => Ok(LinkPlan::Forest { root_id }),
            Some((root_id, Some(library))) => if self.debug_infos@[library as int] is None {
                Ok(LinkPlan::Forest { root_id })
            } else {
                match self.linked_source(library as int, hint) {
                    Ok(Some(source)) => Ok(LinkPlan::Package { library, source }),
                    Ok(None) => Ok(LinkPlan::Forest { root_id }),
                    Err(e) => Err(e),
                }
            },
        }
    }
}

/// A lookup finds libraries and roots that exist.
proof fn lemma_looked_up(
    roots: StaticRoots,
    merged: ForestModel,
    commitment: Word,
    root: MastNodeId,
    mast_root: Word,
    k: nat,
)
    requires
        k <= usize::MAX,
    ensures
        match looked_up(roots, merged, commitment, root, mast_root, k) {
            StaticRootLookup::Found { library, root_id } => library < k && root_id.0
                < merged.nodes.len(),
            _ => true,
        },
    decreases k,
{
    if k > 0 {
        lemma_looked_up(roots, merged, commitment, root, mast_root, (k - 1) as nat);
    }
}

impl StaticLibraries {
    /// The root that a hint leads to. A hint that is missing or ambiguous is passed over: code is
    /// the same under the same digest.
    pub fn find_statically_linked_root(&self, hint: LinkHint, mast_root: Word) -> (found: Option<
        (MastNodeId, Option<usize>),
    >)
        requires
            self.wf(),
        ensures
            found == self.linked_root(hint, mast_root),
            match found {
                Some((root_id, library)) => root_id.0 < self.merged@.nodes.len() && (
                library is Some ==> library->0 < self.forests@.len() && hint.root is Some),
                None => true,
            },
    {
        if let Some(commitment) = hint.commitment {
            if let Some(root) = hint.root {
                let n: usize = self.roots.libraries.len();
                proof {
                    assert(n == self.roots.libraries@.len());
                    lemma_looked_up(
                        self.roots,
                        self.merged@,
                        commitment,
                        root,
                        mast_root,
                        self.roots.libraries@.len(),
                    );
                }
                match self.roots.find_exact_statically_linked_root(
                    &self.merged,
                    commitment,
                    root,
                    mast_root,
                ) {
                    StaticRootLookup::Found { library, root_id } => {
                        return Some((root_id, Some(library)));
                    },
                    _ => {},
                }
            }
        }
        match find_procedure_root(&self.merged, mast_root) {
            Some(root_id) => Some((root_id, None)),
            None => None,
        }
    }

    /// Decides where the code of a procedure comes from.
    pub fn plan_link(&self, hint: LinkHint, mast_root: Word) -> (plan: Result<
        LinkPlan,
        StaticImportError,
    >)
        requires
            self.wf(),
        ensures
            plan == self.link_plan(hint, mast_root),
            match plan {
                Ok(LinkPlan::Package { library, source }) => library < self.forests@.len()
                    && self.debug_infos@[library as int] is Some && source
                    < self.debug_infos@[library as int]->0@.nodes.len(),
                Ok(LinkPlan::Forest { root_id }) => root_id.0 < self.merged@.nodes.len(),
                _ => true,
            },
    {
        let (root_id, library): (MastNodeId, usize) = match self.find_statically_linked_root(
            hint,
            mast_root,
        ) {
            None => {
                return Ok(LinkPlan::Elsewhere);
            },
            Some((root_id, None)) => {
                return Ok(LinkPlan::Forest { root_id });
            },
            Some((root_id, Some(library))) => (root_id, library),
        };
        let exec_node: u32 = match hint.root {
            Some(root) => root.0,
            None => {
                assert(false);
                0
            },
        };
        match &self.debug_infos[library] {
            None => Ok(LinkPlan::Forest { root_id }),
            Some(package) => {
                let start = match hint.source {
                    Some(source) => Some(source),
                    None => match package.unique_source_root_for_exec_node(exec_node) {
                        Ok(start) => start,
                        Err(e) => {
                            return Err(e);
                        },
                    },
                };
                match start {
                    None => Ok(LinkPlan::Forest { root_id }),
                    Some(source) => {
                        if source as usize >= package.nodes.len() {
                            return Err(StaticImportError::MissingSourceNode { source });
                        }
                        assert(package@.nodes[source as int] == package.nodes@[source as int]@);
                        let actual: u32 = package.nodes[source as usize].exec_node;
                        if actual != exec_node {
                            return Err(
                                StaticImportError::SourceRootMismatch {
                                    source,
                                    actual,
                                    expected: exec_node,
                                },
                            );
                        }
                        Ok(LinkPlan::Package { library, source })
                    },
                }
            },
        }
    }
}

/// The code at a source node of a package was copied with its source graph, its rows through
/// `map`. Roots and tables stay as they are.
pub open spec fn package_linked(
    b: BuilderModel,
    after: BuilderModel,
    libraries: StaticLibraries,
    library: int,
    source: u32,
    map: TablesModel,
    r: MastNodeRef,
) -> bool {
    &&& frame_kept(b, after)
    &&& extends(b, after)
    &&& exists|uses: Seq<Option<MastNodeUse>>| #[trigger]
        copied_tree(
            b,
            after,
            libraries.forests@[library]@.nodes,
            libraries.debug_infos@[library]->0@,
            map,
            uses,
            source,
        ) && (uses[source as int] matches Some(u) && u.node_ref == r)
}

/// Code was linked as planned. From a package, the tables are imported first, unless they were
/// imported before.
pub open spec fn linked_as(
    b: BuilderModel,
    after: BuilderModel,
    libraries: StaticLibraries,
    plan: LinkPlan,
    mast_root: Word,
    r: MastNodeRef,
) -> bool {
    match plan {
        LinkPlan::Package { library, source } => exists|mid: BuilderModel, map: TablesModel|
            #[trigger] with_tables(
                b,
                mid,
                library as int,
                libraries.debug_infos@[library as int]->0@,
                map,
            ) && package_linked(mid, after, libraries, library as int, source, map, r),
        LinkPlan::Forest { root_id } => {
            &&& frame_kept(b, after)
            &&& exists|refs: Seq<Option<MastNodeRef>>| #[trigger]
                bare_copied_tree(b, after, libraries.merged@.nodes, refs, root_id.0)
                    && refs[root_id.0 as int] == Some(r)
        },
        LinkPlan::Elsewhere => exists|u: MastNodeUse| #[trigger]
            recorded(
                b,
                after,
                bare_draft(PendingKind::External, mast_root, Seq::empty()),
                Seq::empty(),
                u,
            ) && u.node_ref == r,
    }
}

/// Why code cannot be linked as planned.
pub open spec fn link_failed(
    libraries: StaticLibraries,
    plan: LinkPlan,
    mast_root: Word,
    b: BuilderModel,
    after: BuilderModel,
    e: StaticImportError,
) -> bool {
    match plan {
        LinkPlan::Package { library, source } => match e {
            StaticImportError::Tables(e) => import_failed(
                b,
                library as int,
                libraries.debug_infos@[library as int]->0@,
                e,
            ) && after == b,
            _ => exists|mid: BuilderModel, map: TablesModel|
                #[trigger] with_tables(
                    b,
                    mid,
                    library as int,
                    libraries.debug_infos@[library as int]->0@,
                    map,
                ) && package_failed(
                    mid,
                    libraries.forests@[library as int]@.nodes,
                    libraries.debug_infos@[library as int]->0@,
                    map,
                    source,
                    after,
                    e,
                ),
        },
        LinkPlan::Forest { root_id } => e matches StaticImportError::Build(e) && bare_failed(
            b,
            libraries.merged@.nodes,
            root_id.0,
            after,
            e,
        ),
        LinkPlan::Elsewhere => e matches StaticImportError::Build(e) && record_failed(
            b,
            after,
            bare_draft(PendingKind::External, mast_root, Seq::empty()),
            e,
        ),
    }
}

impl MastForestBuilder {
    /// Copies the subtree that a plan names.
    fn copy_statically_linked_subtree_ref(
        &mut self,
        libraries: &StaticLibraries,
        plan: LinkPlan,
        mast_root: Word,
    ) -> (res: Result<MastNodeRef, StaticImportError>)
        requires
            old(self)@.wf(),
            libraries.wf(),
            mast_root.wf(),
            match plan {
                LinkPlan::Package { library, source } => library < libraries.forests@.len()
                    && libraries.debug_infos@[library as int] is Some && source
                    < libraries.debug_infos@[library as int]->0@.nodes.len(),
                LinkPlan::Forest { root_id } => root_id.0 < libraries.merged@.nodes.len(),
                LinkPlan::Elsewhere => true,
            },
        ensures
            same_procedures(old(self).registry, final(self).registry),
            match res {
                Ok(r) => {
                    &&& final(self)@.wf()
                    &&& extends(old(self)@, final(self)@)
                    &&& r.0 < final(self)@.nodes.len()
                    &&& linked_as(old(self)@, final(self)@, *libraries, plan, mast_root, r)
                },
                Err(e) => link_failed(*libraries, plan, mast_root, old(self)@, final(self)@, e),
            },
    {
        let ghost b = self@;
        match plan {
            LinkPlan::Package { library, source } => {
                match &libraries.debug_infos[library] {
                    Some(package) => {
                        assert(libraries.debug_infos@[library as int] == Some(*package));
                        let n: usize = libraries.forests.len();
                        assert(library < n);
                        let map = match self.import_static_debug_tables(library, package) {
                            Ok(map) => map,
                            Err(e) => {
                                return Err(StaticImportError::Tables(e));
                            },
                        };
                        let ghost mid = self@;
                        match self.copy_package_debug_source_subtree_ref(
                            &libraries.forests[library],
                            package,
                            &map,
                            source,
                        ) {
                            Ok(u) => {
                                proof {
                                    lemma_extends_trans(b, mid, self@);
                                    assert(with_tables(b, mid, library as int, package@, map@));
                                    assert(package_linked(
                                        mid,
                                        self@,
                                        *libraries,
                                        library as int,
                                        source,
                                        map@,
                                        u.node_ref,
                                    ));
                                    assert(linked_as(b, self@, *libraries, plan, mast_root, u.node_ref));
                                }
                                Ok(u.node_ref)
                            },
                            Err(e) => {
                                proof {
                                    assert(!(e is Tables)) by {
                                        reveal(package_failed);
                                    }
                                    assert(with_tables(b, mid, library as int, package@, map@));
                                    assert(link_failed(*libraries, plan, mast_root, b, self@, e));
                                }
                                Err(e)
                            },
                        }
                    },
                    None => {
                        assert(false);
                        Err(StaticImportError::MissingSourceNode { source })
                    },
                }
            },
            LinkPlan::Forest { root_id } => {
                match self.copy_forest_subtree_ref(&libraries.merged, root_id) {
                    Ok(r) => {
                        assert(linked_as(b, self@, *libraries, plan, mast_root, r));
                        Ok(r)
                    },
                    Err(e) => Err(StaticImportError::Build(e)),
                }
            },
            LinkPlan::Elsewhere => {
                match self.ensure_external_node(mast_root) {
                    Ok(u) => Ok(u.node_ref),
                    Err(e) => Err(StaticImportError::Build(e)),
                }
            },
        }
    }

    /// Makes the code of a procedure available: copied with its source graph from the library that
    /// the hint names, copied from the merged forest, or as a placeholder.
    pub fn ensure_external_link_with_source_ref(
        &mut self,
        libraries: &StaticLibraries,
        hint: LinkHint,
        mast_root: Word,
    ) -> (res: Result<MastNodeRef, StaticImportError>)
        requires
            old(self)@.wf(),
            libraries.wf(),
            mast_root.wf(),
        ensures
            same_procedures(old(self).registry, final(self).registry),
            match libraries.link_plan(hint, mast_root) {
                Err(e) => res == Err::<MastNodeRef, StaticImportError>(e) && final(self)@
                    == old(self)@,
                Ok(plan) => match res {
                    Ok(r) => {
                        &&& final(self)@.wf()
                        &&& extends(old(self)@, final(self)@)
                        &&& keeps_imports(*libraries, old(self)@, final(self)@)
                        &&& r.0 < final(self)@.nodes.len()
                        &&& linked_as(old(self)@, final(self)@, *libraries, plan, mast_root, r)
                    },
                    Err(e) => link_failed(
                        *libraries,
                        plan,
                        mast_root,
                        old(self)@,
                        final(self)@,
                        e,
                    ),
                },
            },
    {
        match libraries.plan_link(hint, mast_root) {
            Ok(plan) => {
                let ghost b = self@;
                let res = self.copy_statically_linked_subtree_ref(libraries, plan, mast_root);
                proof {
                    if let Ok(r) = res {
                        if imports_known(b, *libraries) {
                            law_linked_rows_name_the_same(
                                b,
                                self@,
                                *libraries,
                                plan,
                                mast_root,
                                r,
                            );
                        }
                    }
                }
                res
            },
            Err(e) => Err(e),
        }
    }
}

// LAWS OF LOOKING UP AND COPYING
// ================================================================================================

/// A library was found by its commitment if and only if it is the only one that has the root there
/// with the digest that is asked for; if several have it, which of them is meant is not known.
pub proof fn law_found_libraries_are_the_only_ones(
    roots: StaticRoots,
    merged: ForestModel,
    commitment: Word,
    root: MastNodeId,
    mast_root: Word,
    k: nat,
)
    requires
        k <= usize::MAX,
    ensures
        match looked_up(roots, merged, commitment, root, mast_root, k) {
            StaticRootLookup::Missing => forall|i: int|
                0 <= i < k ==> #[trigger] library_root(
                    roots,
                    merged,
                    commitment,
                    root,
                    mast_root,
                    i,
                ) is None,
            StaticRootLookup::Found { library, root_id } => {
                &&& library < k
                &&& known_by(roots.libraries@[library as int], commitment)
                &&& root_id.0 < merged.nodes.len()
                &&& merged.nodes[root_id.0 as int].digest == mast_root
                &&& forall|i: int|
                    0 <= i < k ==> #[trigger] library_root(
                        roots,
                        merged,
                        commitment,
                        root,
                        mast_root,
                        i,
                    ) == if i == library {
                        Some(root_id)
                    } else {
                        None::<MastNodeId>
                    }
            },
            StaticRootLookup::Ambiguous => exists|i: int, j: int|
                0 <= i < j < k && #[trigger] library_root(
                    roots,
                    merged,
                    commitment,
                    root,
                    mast_root,
                    i,
                ) is Some && #[trigger] library_root(
                    roots,
                    merged,
                    commitment,
                    root,
                    mast_root,
                    j,
                ) is Some,
        },
    decreases k,
{
    if k > 0 {
        law_found_libraries_are_the_only_ones(
            roots,
            merged,
            commitment,
            root,
            mast_root,
            (k - 1) as nat,
        );
        let last = library_root(roots, merged, commitment, root, mast_root, k - 1);
        match looked_up(roots, merged, commitment, root, mast_root, (k - 1) as nat) {
            StaticRootLookup::Found { library, root_id } => {
                if last is Some {
                    assert(library_root(roots, merged, commitment, root, mast_root, library as int)
                        is Some);
                }
            },
            _ => {},
        }
    }
}

proof fn lemma_root_with_digest(forest: ForestModel, digest: Word, k: nat)
    ensures
        match root_with_digest(forest, digest, k) {
            Some(id) => forest.nodes[id.0 as int].digest == digest && exists|i: int|
                0 <= i < k && #[trigger] forest.roots[i] == id,
            None => forall|i: int|
                0 <= i < k ==> forest.nodes[(#[trigger] forest.roots[i]).0 as int].digest != digest,
        },
    decreases k,
{
    if k > 0 {
        lemma_root_with_digest(forest, digest, (k - 1) as nat);
        if root_with_digest(forest, digest, k) is Some && root_with_digest(
            forest,
            digest,
            (k - 1) as nat,
        ) is None {
            assert(forest.roots[k - 1] == root_with_digest(forest, digest, k)->0);
        }
    }
}

/// What is linked has the digest that is asked for: code of the merged libraries has it; an
/// occurrence of a package is one of the root that is hinted at, in a library that is known by the
/// commitment that is hinted at; and code is left to be found elsewhere only if no root of the
/// libraries has the digest.
pub proof fn law_linked_code_has_the_digest(
    libraries: StaticLibraries,
    hint: LinkHint,
    mast_root: Word,
)
    requires
        libraries.wf(),
    ensures
        libraries.link_plan(hint, mast_root) matches Ok(plan) ==> match plan {
            LinkPlan::Forest { root_id } => libraries.merged@.nodes[root_id.0 as int].digest
                == mast_root,
            LinkPlan::Package { library, source } => {
                &&& hint.commitment is Some
                &&& hint.root is Some
                &&& library < libraries.roots.libraries@.len()
                &&& known_by(libraries.roots.libraries@[library as int], hint.commitment->0)
                &&& library_root(
                    libraries.roots,
                    libraries.merged@,
                    hint.commitment->0,
                    hint.root->0,
                    mast_root,
                    library as int,
                ) is Some
                &&& libraries.debug_infos@[library as int] matches Some(package) && source
                    < package@.nodes.len() && package@.nodes[source as int].exec_node
                    == (hint.root->0).0
                &&& hint.source is Some ==> hint.source == Some(source)
            },
            LinkPlan::Elsewhere => forall|i: int|
                0 <= i < libraries.merged@.roots.len() ==> libraries.merged@.nodes[(
                #[trigger] libraries.merged@.roots[i]).0 as int].digest != mast_root,
        },
{
    let merged = libraries.merged@;
    lemma_root_with_digest(merged, mast_root, merged.roots.len());
    assert(libraries.roots.libraries@.len() == libraries.roots.libraries.len());
    if hint.commitment is Some && hint.root is Some {
        law_found_libraries_are_the_only_ones(
            libraries.roots,
            merged,
            hint.commitment->0,
            hint.root->0,
            mast_root,
            libraries.roots.libraries@.len(),
        );
    }
}

/// How many of the uses from `i` on are of a node.
pub open spec fn uses_from(refs: Seq<MastNodeRef>, r: MastNodeRef, i: nat) -> nat
    decreases refs.len() - i,
{
    if i >= refs.len() {
        0
    } else {
        uses_from(refs, r, i + 1) + if refs[i as int] == r {
            1nat
        } else {
            0nat
        }
    }
}

proof fn lemma_uses_split(refs: Seq<MastNodeRef>, r: MastNodeRef, i: nat)
    requires
        i <= refs.len(),
    ensures
        uses_of(refs, r, refs.len()) == uses_of(refs, r, i) + uses_from(refs, r, i),
    decreases refs.len() - i,
{
    if i < refs.len() {
        lemma_uses_split(refs, r, i + 1);
    }
}

/// The uses of a node take its latest occurrences, the last use the latest and each use before it
/// the one before, as far as there are so many. A node that is used once is used as it occurred
/// last.
pub proof fn law_uses_take_the_latest_occurrences(graph: GraphModel, refs: Seq<MastNodeRef>, i: nat)
    requires
        i < refs.len(),
        uses_from(refs, refs[i as int], 0) <= graph.history[refs[i as int].0 as int].len(),
    ensures
        ({
            let history = graph.history[refs[i as int].0 as int];
            &&& occurrence_for(graph, refs, i as int) == history[history.len() - uses_from(
                refs,
                refs[i as int],
                i,
            )]
            &&& uses_from(refs, refs[i as int], i) >= 1
        }),
{
    lemma_uses_split(refs, refs[i as int], i);
    lemma_uses_split(refs, refs[i as int], 0);
    assert(uses_of(refs, refs[i as int], 0) == 0);
}

/// A copy of an occurrence of a package was recorded under the digest of its code and of the same
/// kind, over the copies of its children: the copy that is child `j` is that of an occurrence of
/// child `j` of the code.
pub open spec fn copied_over(
    forest: Seq<NodeModel>,
    package: PackageModel,
    uses: Seq<Option<MastNodeUse>>,
    x: u32,
    draft: DraftModel,
    sources: Seq<u32>,
) -> bool {
    let node = package.nodes[x as int];
    let code = forest[node.exec_node as int];
    &&& draft.digest == code.digest
    &&& draft.kind == pending_kind(code.kind)
    &&& draft.child_refs.len() == code.kind.children().len()
    &&& sources.len() == code.kind.children().len()
    &&& forall|j: int|
        0 <= j < code.kind.children().len() ==> {
            let child = (#[trigger] node.children[j]) as int;
            &&& package.nodes[child].exec_node == code.kind.children()[j].0
            &&& uses[child] matches Some(u) && draft.child_refs[j] == u.node_ref && sources[j]
                == u.source_ref.0
        }
}

proof fn lemma_no_child_fault(
    package: PackageModel,
    x: u32,
    children: Seq<MastNodeId>,
    k: nat,
    j: int,
)
    requires
        child_fault(package, x, children, k) is None,
        0 <= j < k,
    ensures
        package.nodes[x as int].children[j] < package.nodes.len(),
        package.nodes[package.nodes[x as int].children[j] as int].exec_node == children[j].0,
    decreases k,
{
    if j < k - 1 {
        lemma_no_child_fault(package, x, children, (k - 1) as nat, j);
    }
}

/// Linking keeps the shape of code: every copy was recorded over the copies of its children, in the
/// order of the children.
pub proof fn law_copies_keep_their_children(
    b: BuilderModel,
    after: BuilderModel,
    forest: Seq<NodeModel>,
    package: PackageModel,
    tables: TablesModel,
    uses: Seq<Option<MastNodeUse>>,
    x: u32,
)
    requires
        copied_as(b, after, forest, package, tables, uses, x),
        source_fault(forest, package, x) is None,
    ensures
        exists|at: BuilderModel, next: BuilderModel, draft: DraftModel, sources: Seq<u32>, from: u32, to: u32|
            #[trigger]
            recorded_over(at, next, draft, sources, from, to, uses[x as int]->0) && extends(b, at)
                && extends(next, after) && copied_over(forest, package, uses, x, draft, sources),
{
    reveal(copied_as);
    let node = package.nodes[x as int];
    let code = forest[node.exec_node as int];
    let metadata = source_metadata(forest, package, tables, x)->Ok_0;
    let children = children_uses(node, uses);
    let draft = static_draft(code, children, metadata);
    let sources = use_sources(children);
    let (at, next) = choose|at: BuilderModel, next: BuilderModel| #[trigger]
        copied_between(at, next, draft, sources, metadata, uses[x as int]->0) && extends(b, at)
            && extends(next, after);
    assert forall|j: int| 0 <= j < code.kind.children().len() implies {
        let child = (#[trigger] node.children[j]) as int;
        &&& package.nodes[child].exec_node == code.kind.children()[j].0
        &&& uses[child] matches Some(u) && draft.child_refs[j] == u.node_ref && sources[j]
            == u.source_ref.0
    } by {
        lemma_no_child_fault(
            package,
            x,
            code.kind.children(),
            code.kind.children().len(),
            j,
        );
    }
    assert(copied_over(forest, package, uses, x, draft, sources));
    assert(recorded_over(
        at,
        next,
        draft,
        sources,
        metadata.op_start,
        metadata.op_end,
        uses[x as int]->0,
    ));
}

/// A library is found by its commitment as well as by the other one that it is known by: if it has
/// the root there, with the digest that is asked for, the lookup is not without result.
pub proof fn law_known_libraries_are_found(
    roots: StaticRoots,
    merged: ForestModel,
    commitment: Word,
    root: MastNodeId,
    mast_root: Word,
    k: nat,
    i: int,
)
    requires
        0 <= i < k <= usize::MAX,
        roots.libraries@[i].commitment == commitment || roots.libraries@[i].alternate == Some(
            commitment,
        ),
        mapped_root(roots.root_maps@[i]@, root, roots.root_maps@[i]@.len()) matches Some(id) && id.0
            < merged.nodes.len() && merged.nodes[id.0 as int].digest == mast_root,
    ensures
        !(looked_up(roots, merged, commitment, root, mast_root, k) is Missing),
        looked_up(roots, merged, commitment, root, mast_root, k) matches StaticRootLookup::Found {
            library,
            root_id,
        } ==> library == i && Some(root_id) == mapped_root(
            roots.root_maps@[i]@,
            root,
            roots.root_maps@[i]@.len(),
        ),
{
    law_found_libraries_are_the_only_ones(roots, merged, commitment, root, mast_root, k);
    assert(library_root(roots, merged, commitment, root, mast_root, i) is Some);
}

/// A hint is followed: if it leads to one library that describes its occurrences, and to an
/// occurrence there of the root that it names, that occurrence is linked.
pub proof fn law_hints_are_followed(
    libraries: StaticLibraries,
    hint: LinkHint,
    mast_root: Word,
    library: usize,
    root_id: MastNodeId,
    source: u32,
)
    requires
        hint.commitment is Some,
        hint.root is Some,
        looked_up(
            libraries.roots,
            libraries.merged@,
            hint.commitment->0,
            hint.root->0,
            mast_root,
            libraries.roots.libraries@.len(),
        ) == (StaticRootLookup::Found { library, root_id }),
        libraries.debug_infos@[library as int] matches Some(package) && source
            < package@.nodes.len() && package@.nodes[source as int].exec_node == (hint.root->0).0,
        hint.source == Some(source) || (hint.source is None && source_roots_of(
            libraries.debug_infos@[library as int]->0@,
            (hint.root->0).0,
            libraries.debug_infos@[library as int]->0@.roots.len(),
        ) == seq![source]),
    ensures
        libraries.link_plan(hint, mast_root) == Ok::<LinkPlan, StaticImportError>(
            LinkPlan::Package { library, source },
        ),
{
}

/// The occurrences that a root of a package can be linked as are the roots of its source graph that
/// stand for it.
pub proof fn law_source_roots_stand_for_the_code(
    package: PackageModel,
    exec_node: u32,
    k: nat,
    source: u32,
)
    requires
        k <= package.roots.len(),
    ensures
        source_roots_of(package, exec_node, k).contains(source) <==> source < package.nodes.len()
            && package.nodes[source as int].exec_node == exec_node && exists|i: int|
            0 <= i < k && #[trigger] package.roots[i] == source,
    decreases k,
{
    if k > 0 {
        law_source_roots_stand_for_the_code(package, exec_node, (k - 1) as nat, source);
        let before = source_roots_of(package, exec_node, (k - 1) as nat);
        let all = source_roots_of(package, exec_node, k);
        if all.len() > before.len() {
            assert(all =~= before.push(all.last()));
            assert(all[before.len() as int] == all.last());
            assert(package.roots[k - 1] == all.last());
            if before.contains(source) {
                assert(all[before.index_of(source)] == source);
            }
            if all.contains(source) && source != all.last() {
                assert(before[all.index_of(source)] == source);
            }
        }
    }
}

/// A node of the merged libraries was recorded under its digest and of its kind, over the refs of its
/// children in their order.
pub open spec fn linked_over(
    node: NodeModel,
    refs: Seq<Option<MastNodeRef>>,
    draft: DraftModel,
) -> bool {
    &&& draft.digest == node.digest
    &&& draft.kind == pending_kind(node.kind)
    &&& draft.child_refs.len() == node.kind.children().len()
    &&& forall|j: int|
        0 <= j < draft.child_refs.len() ==> refs[node.kind.children()[j].0 as int] == Some(
            #[trigger] draft.child_refs[j],
        )
}

/// Linking code without its occurrences keeps its shape: every node was recorded over the refs of its
/// children, in their order.
pub proof fn law_linked_nodes_keep_their_children(
    b: BuilderModel,
    after: BuilderModel,
    forest: Seq<NodeModel>,
    refs: Seq<Option<MastNodeRef>>,
    x: u32,
)
    requires
        bare_copied_as(b, after, forest, refs, x),
    ensures
        exists|at: BuilderModel, next: BuilderModel, draft: DraftModel, sources: Seq<u32>, u: MastNodeUse|
            #[trigger]
            recorded(at, next, draft, sources, u) && Some(u.node_ref) == refs[x as int] && extends(
                b,
                at,
            ) && extends(next, after) && linked_over(forest[x as int], refs, draft),
{
    reveal(bare_copied_as);
    let node = forest[x as int];
    let children = children_refs(node, refs);
    let draft = bare_draft(pending_kind(node.kind), node.digest, children);
    let (at, next) = choose|at: BuilderModel, next: BuilderModel| #[trigger]
        bare_between(at, next, node, children, refs[x as int]->0) && extends(b, at) && extends(
            next,
            after,
        );
    let u = choose|u: MastNodeUse| #[trigger]
        recorded(at, next, draft, occurrences_for(at.graph, children), u) && u.node_ref
            == refs[x as int]->0;
    assert forall|j: int| 0 <= j < draft.child_refs.len() implies refs[node.kind.children()[j].0
        as int] == Some(#[trigger] draft.child_refs[j]) by {
        assert(refs[node.kind.children()[j].0 as int] is Some);
    }
    assert(linked_over(node, refs, draft));
    assert(recorded(at, next, draft, occurrences_for(at.graph, children), u));
}

/// Code that is to be found elsewhere is known by the digest that was asked for.
pub proof fn law_placeholders_are_known_by_their_digest(
    b: BuilderModel,
    after: BuilderModel,
    libraries: StaticLibraries,
    mast_root: Word,
    r: MastNodeRef,
)
    requires
        b.wf(),
        linked_as(b, after, libraries, LinkPlan::Elsewhere, mast_root, r),
    ensures
        r.0 < after.nodes.len(),
        after.nodes[r.0 as int].key == mast_root,
        after.nodes.len() > b.nodes.len() ==> after.nodes[r.0 as int].kind is External
            && after.nodes[r.0 as int].digest == mast_root,
{
    let draft = bare_draft(PendingKind::External, mast_root, Seq::empty());
    let u = choose|u: MastNodeUse| #[trigger]
        recorded(b, after, draft, Seq::empty(), u) && u.node_ref == r;
    assert(crate::builder::draft_key(b.nodes, draft) == mast_root);
    crate::builder::lemma_find_key(b.nodes, mast_root, b.nodes.len());
}

} // verus!
