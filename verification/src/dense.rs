//! Bringing the nodes of a forest into dense order.

use vstd::prelude::*;
use crate::felt::{law_word_order, Word};
use crate::forest::{
    bare_entries, dense, digests_of, late_child, misplaced, order_fault, AdviceMap, MastForest,
    MastForestError, MAX_NODES,
};
use crate::node::{
    children_below, copy_batches, entry_of, node_models, KindModel, MastNode, MastNodeId, NodeKind,
    NodeModel,
};

verus! {

/// The class of a node in dense order: external nodes, then basic blocks, then the others.
pub open spec fn class_of(kind: KindModel) -> int {
    match kind {
        KindModel::External => 0,
        KindModel::Block(_) => 1,
        _ => 2,
    }
}

/// The name of a node after the nodes were moved.
pub open spec fn moved(map: Seq<u32>, id: MastNodeId) -> MastNodeId {
    MastNodeId(map[id.0 as int])
}

/// A node after the nodes were moved.
pub open spec fn moved_node(map: Seq<u32>, node: NodeModel) -> NodeModel {
    NodeModel { kind: node.kind.renamed(|id: MastNodeId| moved(map, id)), digest: node.digest }
}

/// `map` moves the nodes of one forest to those of another, and keeps the order of basic blocks
/// and of internal nodes.
pub open spec fn is_move(before: Seq<NodeModel>, after: Seq<NodeModel>, map: Seq<u32>) -> bool {
    &&& map.len() == before.len()
    &&& after.len() == before.len()
    &&& forall|i: int| 0 <= i < map.len() ==> (#[trigger] map[i]) < after.len()
    &&& forall|i: int, j: int| 0 <= i < map.len() && 0 <= j < map.len() && i != j ==> map[i] != map[j]
    &&& forall|i: int|
        0 <= i < before.len() ==> after[#[trigger] map[i] as int] == moved_node(map, before[i])
    &&& forall|i: int, j: int|
        0 <= i < j < before.len() && class_of(before[i].kind) == class_of(before[j].kind)
            && class_of(before[i].kind) > 0 ==> (#[trigger] map[i]) < (#[trigger] map[j])
}

/// A list of nodes of one class, by increasing index.
spec fn increasing_class(nodes: Seq<NodeModel>, list: Seq<u32>, class: int, k: nat) -> bool {
    &&& forall|p: int|
        0 <= p < list.len() ==> (#[trigger] list[p]) < k && class_of(nodes[list[p] as int].kind)
            == class
    &&& forall|p: int, q: int| 0 <= p < q < list.len() ==> list[p] < list[q]
    &&& forall|i: int|
        0 <= i < k && class_of(#[trigger] nodes[i].kind) == class ==> list.contains(i as u32)
}

/// The external nodes below `k`, by increasing digest.
spec fn sorted_externals(nodes: Seq<NodeModel>, list: Seq<u32>, k: nat) -> bool {
    &&& forall|p: int|
        0 <= p < list.len() ==> (#[trigger] list[p]) < k && nodes[list[p] as int].kind is External
    &&& forall|p: int, q: int|
        0 <= p < q < list.len() ==> nodes[list[p] as int].digest.lt_spec(
            nodes[list[q] as int].digest,
        )
    &&& forall|i: int|
        0 <= i < k && #[trigger] nodes[i].kind is External ==> list.contains(i as u32)
}

/// Two external nodes with digest `d`.
pub open spec fn duplicate_external(nodes: Seq<NodeModel>, d: Word) -> bool {
    exists|i: int, j: int|
        0 <= i < j < nodes.len() && (#[trigger] nodes[i]).kind is External
            && (#[trigger] nodes[j]).kind is External && nodes[i].digest == d && nodes[j].digest
            == d
}

fn class_index(kind: &NodeKind) -> (class: u8)
    ensures
        class as int == class_of(kind@),
{
    match kind {
        NodeKind::External => 0,
        NodeKind::Block(_) => 1,
        _ => 2,
    }
}

proof fn lemma_insert_external(nodes: Seq<NodeModel>, list: Seq<u32>, k: nat, at: int)
    requires
        sorted_externals(nodes, list, k),
        k < nodes.len() <= u32::MAX,
        nodes[k as int].kind is External,
        0 <= at <= list.len(),
        forall|p: int|
            0 <= p < at ==> nodes[#[trigger] list[p] as int].digest.lt_spec(nodes[k as int].digest),
        at < list.len() ==> nodes[k as int].digest.lt_spec(nodes[list[at] as int].digest),
    ensures
        sorted_externals(nodes, list.insert(at, k as u32), (k + 1) as nat),
{
    let after = list.insert(at, k as u32);
    let d = nodes[k as int].digest;
    assert forall|p: int| at <= p < list.len() implies d.lt_spec(
        nodes[#[trigger] list[p] as int].digest,
    ) by {
        if p > at {
            law_word_order(d, nodes[list[at] as int].digest, nodes[list[p] as int].digest);
        }
    }
    assert forall|p: int, q: int| 0 <= p < q < after.len() implies nodes[after[p] as int].digest.lt_spec(
        nodes[after[q] as int].digest,
    ) by {
        let a = if p < at { p } else { p - 1 };
        let b = if q < at { q } else { q - 1 };
        if p != at && q != at {
            assert(after[p] == list[a] && after[q] == list[b]);
        } else if p == at {
            assert(after[q] == list[b]);
        } else {
            assert(after[p] == list[p]);
        }
    }
    assert forall|p: int| 0 <= p < after.len() implies (#[trigger] after[p]) < k + 1
        && nodes[after[p] as int].kind is External by {
        if p != at {
            let a = if p < at { p } else { p - 1 };
            assert(after[p] == list[a]);
        }
    }
    assert forall|i: int| 0 <= i < k + 1 && #[trigger] nodes[i].kind is External implies after.contains(
        i as u32,
    ) by {
        if i == k {
            assert(after[at] == k as u32);
        } else {
            let p = choose|p: int| 0 <= p < list.len() && list[p] == i as u32;
            if p < at {
                assert(after[p] == i as u32);
            } else {
                assert(after[p + 1] == i as u32);
            }
        }
    }
}

proof fn lemma_push_class(nodes: Seq<NodeModel>, list: Seq<u32>, class: int, k: nat)
    requires
        increasing_class(nodes, list, class, k),
        k < nodes.len() <= u32::MAX,
        class_of(nodes[k as int].kind) == class,
    ensures
        increasing_class(nodes, list.push(k as u32), class, (k + 1) as nat),
{
    let after = list.push(k as u32);
    assert forall|i: int| 0 <= i < k + 1 && class_of(#[trigger] nodes[i].kind) == class implies after.contains(
        i as u32,
    ) by {
        if i == k {
            assert(after[list.len() as int] == k as u32);
        } else {
            let p = choose|p: int| 0 <= p < list.len() && list[p] == i as u32;
            assert(after[p] == i as u32);
        }
    }
}

/// Copies a node with its children renamed.
fn move_node(node: &MastNode, map: &Vec<u32>) -> (res: MastNode)
    requires
        children_below(node@.kind, map@.len() as int),
    ensures
        res@ == moved_node(map@, node@),
{
    proof {
        let c = node@.kind.children();
        assert(c.len() > 0 ==> c[0].0 < map@.len());
        assert(c.len() > 1 ==> c[1].0 < map@.len());
    }
    let kind = match &node.kind {
        NodeKind::Block(batches) => NodeKind::Block(copy_batches(batches)),
        NodeKind::Join(a, b) => NodeKind::Join(
            MastNodeId(map[a.0 as usize]),
            MastNodeId(map[b.0 as usize]),
        ),
        NodeKind::Split(a, b) => NodeKind::Split(
            MastNodeId(map[a.0 as usize]),
            MastNodeId(map[b.0 as usize]),
        ),
        NodeKind::Loop(a) => NodeKind::Loop(MastNodeId(map[a.0 as usize])),
        NodeKind::Call(a) => NodeKind::Call(MastNodeId(map[a.0 as usize])),
        NodeKind::SysCall(a) => NodeKind::SysCall(MastNodeId(map[a.0 as usize])),
        NodeKind::Dyn => NodeKind::Dyn,
        NodeKind::Dyncall => NodeKind::Dyncall,
        NodeKind::External => NodeKind::External,
    };
    MastNode { kind, digest: node.digest }
}

/// The dense order of nodes: which node comes at each position.
fn dense_order(nodes: &Vec<MastNode>) -> (res: Result<Vec<u32>, MastForestError>)
    requires
        nodes@.len() <= MAX_NODES,
    ensures
        match res {
            Ok(order) => in_dense_order(node_models(nodes@), order@),
            Err(e) => e matches MastForestError::DuplicateExternal(d) && duplicate_external(
                node_models(nodes@),
                d,
            ),
        },
{
    let ghost models = node_models(nodes@);
    let n: usize = nodes.len();
    let mut externals: Vec<u32> = Vec::new();
    let mut blocks: Vec<u32> = Vec::new();
    let mut inner: Vec<u32> = Vec::new();
    let mut i: usize = 0;
    while i < n
        invariant
            i <= n == nodes@.len() <= MAX_NODES,
            models == node_models(nodes@),
            sorted_externals(models, externals@, i as nat),
            increasing_class(models, blocks@, 1, i as nat),
            increasing_class(models, inner@, 2, i as nat),
        decreases n - i,
    {
        assert(models[i as int] == nodes@[i as int]@);
        let class: u8 = class_index(&nodes[i].kind);
        if class == 0 {
            let digest = nodes[i].digest;
            let mut at: usize = 0;
            while at < externals.len() && nodes[externals[at] as usize].digest.lt(&digest)
                invariant
                    at <= externals@.len(),
                    i < n == nodes@.len(),
                    models == node_models(nodes@),
                    digest == models[i as int].digest,
                    sorted_externals(models, externals@, i as nat),
                    forall|p: int|
                        0 <= p < at ==> models[#[trigger] externals@[p] as int].digest.lt_spec(
                            digest,
                        ),
                ensures
                    at <= externals@.len(),
                    forall|p: int|
                        0 <= p < at ==> models[#[trigger] externals@[p] as int].digest.lt_spec(
                            digest,
                        ),
                    at < externals@.len() ==> !models[externals@[at as int] as int].digest.lt_spec(
                        digest,
                    ),
                decreases externals@.len() - at,
            {
                at += 1;
            }
            if at < externals.len() {
                let other = nodes[externals[at] as usize].digest;
                if other == digest {
                    proof {
                        let j = externals@[at as int] as int;
                        assert(models[j].kind is External && models[i as int].kind is External);
                    }
                    return Err(MastForestError::DuplicateExternal(digest));
                }
                proof {
                    law_word_order(digest, models[externals@[at as int] as int].digest, digest);
                }
            }
            proof {
                lemma_insert_external(models, externals@, i as nat, at as int);
            }
            externals.insert(at, i as u32);
        } else if class == 1 {
            proof {
                lemma_push_class(models, blocks@, 1, i as nat);
            }
            blocks.push(i as u32);
        } else {
            proof {
                lemma_push_class(models, inner@, 2, i as nat);
            }
            inner.push(i as u32);
        }
        i += 1;
    }
    let ghost e = externals@;
    let ghost b = blocks@;
    let ghost r = inner@;
    let mut order = externals;
    order.append(&mut blocks);
    order.append(&mut inner);
    proof {
        assert(order@ =~= e + b + r);
        lemma_in_dense_order(models, e, b, r, order@);
    }
    Ok(order)
}

/// `order` lists all nodes, by class, external nodes by digest, the others by index.
spec fn in_dense_order(nodes: Seq<NodeModel>, order: Seq<u32>) -> bool {
    &&& forall|p: int| 0 <= p < order.len() ==> (#[trigger] order[p]) < nodes.len()
    &&& forall|i: int| 0 <= i < nodes.len() ==> #[trigger] order.contains(i as u32)
    &&& forall|p: int, q: int| 0 <= p < q < order.len() ==> comes_before(nodes, order[p], order[q])
}

spec fn comes_before(nodes: Seq<NodeModel>, a: u32, b: u32) -> bool {
    let ca = class_of(nodes[a as int].kind);
    let cb = class_of(nodes[b as int].kind);
    ca < cb || (ca == cb && if ca == 0 {
        nodes[a as int].digest.lt_spec(nodes[b as int].digest)
    } else {
        a < b
    })
}

proof fn lemma_in_dense_order(
    nodes: Seq<NodeModel>,
    e: Seq<u32>,
    b: Seq<u32>,
    r: Seq<u32>,
    order: Seq<u32>,
)
    requires
        nodes.len() <= u32::MAX,
        sorted_externals(nodes, e, nodes.len()),
        increasing_class(nodes, b, 1, nodes.len()),
        increasing_class(nodes, r, 2, nodes.len()),
        order == e + b + r,
    ensures
        in_dense_order(nodes, order),
{
    let m = e.len() + b.len();
    assert forall|p: int| 0 <= p < order.len() implies (#[trigger] order[p]) < nodes.len()
        && class_of(nodes[order[p] as int].kind) == (if p < e.len() {
        0int
    } else if p < m {
        1int
    } else {
        2int
    }) by {
        if p < e.len() {
            assert(order[p] == e[p]);
        } else if p < m {
            assert(order[p] == b[p - e.len()]);
        } else {
            assert(order[p] == r[p - m]);
        }
    }
    assert forall|p: int, q: int| 0 <= p < q < order.len() implies comes_before(
        nodes,
        order[p],
        order[q],
    ) by {
        if q < e.len() {
            assert(order[p] == e[p] && order[q] == e[q]);
        } else if p >= e.len() && q < m {
            assert(order[p] == b[p - e.len()] && order[q] == b[q - e.len()]);
        } else if p >= m {
            assert(order[p] == r[p - m] && order[q] == r[q - m]);
        }
    }
    assert forall|i: int| 0 <= i < nodes.len() implies #[trigger] order.contains(i as u32) by {
        let c = class_of(nodes[i].kind);
        if c == 0 {
            let p = choose|p: int| 0 <= p < e.len() && e[p] == i as u32;
            assert(order[p] == i as u32);
        } else if c == 1 {
            let p = choose|p: int| 0 <= p < b.len() && b[p] == i as u32;
            assert(order[e.len() + p] == i as u32);
        } else {
            let p = choose|p: int| 0 <= p < r.len() && r[p] == i as u32;
            assert(order[m + p] == i as u32);
        }
    }
}

/// Nothing comes before itself.
proof fn lemma_order_injective(nodes: Seq<NodeModel>, order: Seq<u32>, p: int, q: int)
    requires
        in_dense_order(nodes, order),
        0 <= p < order.len(),
        0 <= q < order.len(),
        order[p] == order[q],
    ensures
        p == q,
{
    if p < q {
        assert(comes_before(nodes, order[p], order[q]));
        law_word_order(
            nodes[order[p] as int].digest,
            nodes[order[p] as int].digest,
            nodes[order[p] as int].digest,
        );
    } else if q < p {
        assert(comes_before(nodes, order[q], order[p]));
        law_word_order(
            nodes[order[p] as int].digest,
            nodes[order[p] as int].digest,
            nodes[order[p] as int].digest,
        );
    }
}

proof fn lemma_order_len(nodes: Seq<NodeModel>, order: Seq<u32>)
    requires
        in_dense_order(nodes, order),
        nodes.len() <= u32::MAX,
    ensures
        order.len() == nodes.len(),
{
    assert(order.no_duplicates()) by {
        assert forall|p: int, q: int|
            0 <= p < order.len() && 0 <= q < order.len() && p != q implies order[p] != order[q] by {
            if order[p] == order[q] {
                lemma_order_injective(nodes, order, p, q);
            }
        }
    }
    order.unique_seq_to_set();
    let all = Set::new(|x: u32| x < nodes.len());
    assert(order.to_set() =~= all) by {
        assert forall|x: u32| order.to_set().contains(x) <==> all.contains(x) by {
            if order.contains(x) {
                let p = choose|p: int| 0 <= p < order.len() && order[p] == x;
                assert(order[p] < nodes.len());
            }
            if x < nodes.len() {
                let i = x as int;
                assert(order.contains(i as u32));
            }
        }
    }
    let ids = Seq::new(nodes.len(), |i: int| i as u32);
    assert(ids.no_duplicates());
    ids.unique_seq_to_set();
    assert(ids.to_set() =~= all) by {
        assert forall|x: u32| ids.to_set().contains(x) <==> all.contains(x) by {
            if x < nodes.len() {
                assert(ids[x as int] == x);
            }
        }
    }
}

/// `map` gives the position of each node in `order`.
spec fn is_position(order: Seq<u32>, map: Seq<u32>) -> bool {
    &&& map.len() == order.len()
    &&& forall|i: int|
        0 <= i < map.len() ==> (#[trigger] map[i]) < order.len() && order[map[i] as int] == i
}

proof fn lemma_moved_dense(
    before: Seq<NodeModel>,
    after: Seq<NodeModel>,
    order: Seq<u32>,
    map: Seq<u32>,
    k: nat,
)
    requires
        in_dense_order(before, order),
        is_position(order, map),
        before.len() == order.len() == after.len(),
        before.len() <= MAX_NODES,
        forall|i: int|
            0 <= i < before.len() ==> children_below((#[trigger] before[i]).kind, i),
        forall|p: int|
            0 <= p < order.len() ==> #[trigger] after[p] == moved_node(map, before[order[p] as int]),
        k <= after.len(),
    ensures
        order_fault(bare_entries(after), digests_of(after), k) is None,
        forall|p: int| 0 <= p < k ==> children_below((#[trigger] after[p]).kind, p),
    decreases k,
{
    if k > 0 {
        lemma_moved_dense(before, after, order, map, (k - 1) as nat);
        let p = k - 1;
        let i = order[p] as int;
        let c = before[i].kind.children();
        assert(after[p] == moved_node(map, before[i]));
        if p > 0 {
            assert(after[p - 1] == moved_node(map, before[order[p - 1] as int]));
            assert(comes_before(before, order[p - 1], order[p]));
        }
        assert forall|j: int| 0 <= j < c.len() implies map[(#[trigger] c[j]).0 as int] < p by {
            let child = c[j].0;
            assert(child < i);
            let q = map[child as int] as int;
            assert(order[q] == child);
            if q >= p {
                if q > p {
                    assert(comes_before(before, order[p], order[q]));
                }
                assert(class_of(before[i].kind) == 2);
            }
        }
        assert(c.len() > 0 ==> map[c[0].0 as int] < p);
        assert(c.len() > 1 ==> map[c[1].0 as int] < p);
        let entries = bare_entries(after);
        assert(entries[p] == entry_of(after[p].kind, 0));
        if p > 0 {
            assert(entries[p - 1] == entry_of(after[p - 1].kind, 0));
        }
        assert(misplaced(entries, digests_of(after), p) is None);
        assert(children_below(after[p].kind, p));
    }
}

/// The first child that does not come before its node, among the first `k` nodes.
pub open spec fn late_node(nodes: Seq<NodeModel>, k: nat) -> Option<MastForestError>
    decreases k,
{
    if k == 0 {
        None
    } else {
        match late_node(nodes, (k - 1) as nat) {
            Some(e) => Some(e),
            None => match late_child(entry_of(nodes[k - 1].kind, 0), k - 1) {
                Some(c) => Some(
                    MastForestError::ChildNotBefore(MastNodeId((k - 1) as u32), MastNodeId(c)),
                ),
                None => None,
            },
        }
    }
}

/// The first root that is no node, among the first `k` roots.
pub open spec fn bad_root(roots: Seq<MastNodeId>, n: nat, k: nat) -> Option<MastForestError>
    decreases k,
{
    if k == 0 {
        None
    } else {
        match bad_root(roots, n, (k - 1) as nat) {
            Some(e) => Some(e),
            None => if roots[k - 1].0 >= n {
                Some(MastForestError::NodeIdOverflow(roots[k - 1], n as usize))
            } else {
                None
            },
        }
    }
}

proof fn lemma_late_node(nodes: Seq<NodeModel>, k: nat, n: nat)
    requires
        k <= n,
        late_node(nodes, k) is Some,
    ensures
        late_node(nodes, n) == late_node(nodes, k),
    decreases n - k,
{
    if k < n {
        lemma_late_node(nodes, k, (n - 1) as nat);
    }
}

proof fn lemma_bad_root(roots: Seq<MastNodeId>, n: nat, k: nat, m: nat)
    requires
        k <= m,
        bad_root(roots, n, k) is Some,
    ensures
        bad_root(roots, n, m) == bad_root(roots, n, k),
    decreases m - k,
{
    if k < m {
        lemma_bad_root(roots, n, k, (m - 1) as nat);
    }
}

/// What the parts of a forest have to be: few enough nodes, each well formed.
pub open spec fn parts_wf(nodes: Seq<NodeModel>) -> bool {
    forall|i: int| 0 <= i < nodes.len() ==> (#[trigger] nodes[i]).wf()
}

impl MastForest {
    /// Builds a forest in dense order from nodes that come behind their children. Returns also
    /// where each node went.
    ///
    /// Refuses too many nodes, a node before one of its children, a root that is no node, and two
    /// external nodes with the same digest.
    pub fn from_raw_parts_with_id_map(
        nodes: Vec<MastNode>,
        roots: Vec<MastNodeId>,
        advice_map: AdviceMap,
    ) -> (res: Result<(MastForest, Vec<u32>), MastForestError>)
        requires
            parts_wf(node_models(nodes@)),
            advice_map.wf(),
        ensures
            ({
                let parts = node_models(nodes@);
                let n = parts.len();
                if n > MAX_NODES {
                    res is Err && res->Err_0 == MastForestError::TooManyNodes
                } else if late_node(parts, n) is Some {
                    res is Err && res->Err_0 == late_node(parts, n)->0
                } else if bad_root(roots@, n, roots@.len()) is Some {
                    res is Err && res->Err_0 == bad_root(roots@, n, roots@.len())->0
                } else {
                    match res {
                        Ok((forest, map)) => {
                            &&& forest@.wf()
                            &&& dense(forest@.nodes)
                            &&& is_move(parts, forest@.nodes, map@)
                            &&& forest@.roots.len() == roots@.len()
                            &&& forall|j: int|
                                0 <= j < roots@.len() ==> #[trigger] forest@.roots[j] == moved(
                                    map@,
                                    roots@[j],
                                )
                            &&& forest@.advice_map == advice_map@
                        },
                        Err(e) => e matches MastForestError::DuplicateExternal(d)
                            && duplicate_external(parts, d),
                    }
                }
            }),
    {
        let ghost parts = node_models(nodes@);
        let n: usize = nodes.len();
        if n > MAX_NODES {
            return Err(MastForestError::TooManyNodes);
        }
        let mut i: usize = 0;
        while i < n
            invariant
                i <= n == nodes@.len() <= MAX_NODES,
                parts == node_models(nodes@),
                late_node(parts, i as nat) is None,
                forall|j: int| 0 <= j < i ==> children_below((#[trigger] parts[j]).kind, j),
            decreases n - i,
        {
            assert(parts[i as int] == nodes@[i as int]@);
            let late: Option<MastNodeId> = first_late_child(&nodes[i].kind, i);
            if let Some(child) = late {
                proof {
                    lemma_late_node(parts, (i + 1) as nat, n as nat);
                }
                return Err(MastForestError::ChildNotBefore(MastNodeId(i as u32), child));
            }
            i += 1;
        }
        let mut i: usize = 0;
        while i < roots.len()
            invariant
                i <= roots@.len(),
                parts == node_models(nodes@),
                n == parts.len() <= MAX_NODES,
                late_node(parts, n as nat) is None,
                bad_root(roots@, n as nat, i as nat) is None,
                forall|j: int| 0 <= j < i ==> (#[trigger] roots@[j]).0 < n,
            decreases roots@.len() - i,
        {
            if roots[i].0 as usize >= n {
                proof {
                    lemma_bad_root(roots@, n as nat, (i + 1) as nat, roots@.len());
                }
                return Err(MastForestError::NodeIdOverflow(roots[i], n));
            }
            i += 1;
        }
        let order = match dense_order(&nodes) {
            Ok(order) => order,
            Err(e) => {
                return Err(e);
            },
        };
        proof {
            lemma_order_len(parts, order@);
        }
        let map = positions(&order, Ghost(parts));
        let mut moved_nodes: Vec<MastNode> = Vec::new();
        let mut p: usize = 0;
        while p < n
            invariant
                p <= n == nodes@.len() == order@.len() == map@.len(),
                n <= MAX_NODES,
                parts == node_models(nodes@),
                in_dense_order(parts, order@),
                forall|j: int| 0 <= j < n ==> children_below((#[trigger] parts[j]).kind, j),
                moved_nodes@.len() == p,
                forall|q: int|
                    0 <= q < p ==> #[trigger] node_models(moved_nodes@)[q] == moved_node(
                        map@,
                        parts[order@[q] as int],
                    ),
            decreases n - p,
        {
            let i: usize = order[p] as usize;
            assert(order@[p as int] < parts.len());
            assert(parts[i as int] == nodes@[i as int]@);
            assert(children_below(parts[i as int].kind, i as int));
            let node = move_node(&nodes[i], &map);
            let ghost earlier = node_models(moved_nodes@);
            moved_nodes.push(node);
            assert(node_models(moved_nodes@) =~= earlier.push(node@));
            p += 1;
        }
        let mut new_roots: Vec<MastNodeId> = Vec::new();
        let mut i: usize = 0;
        while i < roots.len()
            invariant
                i <= roots@.len(),
                n == map@.len(),
                forall|j: int| 0 <= j < roots@.len() ==> (#[trigger] roots@[j]).0 < n,
                new_roots@.len() == i,
                forall|j: int| 0 <= j < i ==> #[trigger] new_roots@[j] == moved(map@, roots@[j]),
            decreases roots@.len() - i,
        {
            new_roots.push(MastNodeId(map[roots[i].0 as usize]));
            i += 1;
        }
        let forest = MastForest { nodes: moved_nodes, roots: new_roots, advice_map };
        proof {
            let after = node_models(forest.nodes@);
            lemma_moved_dense(parts, after, order@, map@, n as nat);
            assert forall|i: int| 0 <= i < parts.len() implies after[#[trigger] map@[i] as int]
                == moved_node(map@, parts[i]) by {
                assert(order@[map@[i] as int] == i);
                assert(node_models(forest.nodes@)[map@[i] as int] == moved_node(
                    map@,
                    parts[order@[map@[i] as int] as int],
                ));
            }
            assert forall|i: int, j: int|
                0 <= i < map@.len() && 0 <= j < map@.len() && i != j implies map@[i] != map@[j] by {
                assert(order@[map@[i] as int] == i && order@[map@[j] as int] == j);
            }
            assert forall|i: int, j: int|
                0 <= i < j < parts.len() && class_of(parts[i].kind) == class_of(parts[j].kind)
                    && class_of(parts[i].kind) > 0 implies (#[trigger] map@[i]) < (#[trigger] map@[
            j]) by {
                let p = map@[i] as int;
                let q = map@[j] as int;
                assert(order@[p] == i && order@[q] == j);
                if q <= p {
                    if q < p {
                        assert(comes_before(parts, order@[q], order@[p]));
                    }
                }
            }
            assert forall|p: int| 0 <= p < after.len() implies (#[trigger] after[p]).wf() by {
                assert(after[p] == moved_node(map@, parts[order@[p] as int]));
                assert(parts[order@[p] as int].wf());
            }
        }
        Ok((forest, map))
    }

    /// Builds a forest in dense order from nodes that come behind their children.
    pub fn from_raw_parts(
        nodes: Vec<MastNode>,
        roots: Vec<MastNodeId>,
        advice_map: AdviceMap,
    ) -> (res: Result<MastForest, MastForestError>)
        requires
            parts_wf(node_models(nodes@)),
            advice_map.wf(),
        ensures
            ({
                let parts = node_models(nodes@);
                let n = parts.len();
                if n > MAX_NODES {
                    res is Err && res->Err_0 == MastForestError::TooManyNodes
                } else if late_node(parts, n) is Some {
                    res is Err && res->Err_0 == late_node(parts, n)->0
                } else if bad_root(roots@, n, roots@.len()) is Some {
                    res is Err && res->Err_0 == bad_root(roots@, n, roots@.len())->0
                } else {
                    match res {
                        Ok(forest) => {
                            &&& forest@.wf()
                            &&& dense(forest@.nodes)
                            &&& exists|map: Seq<u32>|
                                #[trigger] is_move(parts, forest@.nodes, map) && forest@.roots.len()
                                    == roots@.len() && forall|j: int|
                                    0 <= j < roots@.len() ==> #[trigger] forest@.roots[j] == moved(
                                        map,
                                        roots@[j],
                                    )
                            &&& forest@.advice_map == advice_map@
                        },
                        Err(e) => e matches MastForestError::DuplicateExternal(d)
                            && duplicate_external(parts, d),
                    }
                }
            }),
    {
        match MastForest::from_raw_parts_with_id_map(nodes, roots, advice_map) {
            Ok((forest, map)) => {
                assert(is_move(node_models(nodes@), forest@.nodes, map@));
                Ok(forest)
            },
            Err(e) => Err(e),
        }
    }
}

fn first_late_child(kind: &NodeKind, i: usize) -> (late: Option<MastNodeId>)
    ensures
        match late_child(entry_of(kind@, 0), i as int) {
            Some(c) => late == Some(MastNodeId(c)),
            None => late is None && children_below(kind@, i as int),
        },
{
    match kind {
        NodeKind::Join(a, b) => if a.0 as usize >= i {
            Some(*a)
        } else if b.0 as usize >= i {
            Some(*b)
        } else {
            None
        },
        NodeKind::Split(a, b) => if a.0 as usize >= i {
            Some(*a)
        } else if b.0 as usize >= i {
            Some(*b)
        } else {
            None
        },
        NodeKind::Loop(a) => if a.0 as usize >= i {
            Some(*a)
        } else {
            None
        },
        NodeKind::Call(a) => if a.0 as usize >= i {
            Some(*a)
        } else {
            None
        },
        NodeKind::SysCall(a) => if a.0 as usize >= i {
            Some(*a)
        } else {
            None
        },
        _ => None,
    }
}

/// The position of each node in `order`.
fn positions(order: &Vec<u32>, Ghost(nodes): Ghost<Seq<NodeModel>>) -> (map: Vec<u32>)
    requires
        in_dense_order(nodes, order@),
        order@.len() == nodes.len() <= MAX_NODES,
    ensures
        is_position(order@, map@),
{
    let n: usize = order.len();
    let mut map: Vec<u32> = Vec::new();
    let mut k: usize = 0;
    while k < n
        invariant
            k <= n,
            map@.len() == k,
        decreases n - k,
    {
        map.push(0);
        k += 1;
    }
    let mut p: usize = 0;
    while p < n
        invariant
            p <= n == order@.len() == nodes.len() == map@.len(),
            n <= MAX_NODES,
            in_dense_order(nodes, order@),
            forall|q: int| 0 <= q < p ==> map@[#[trigger] order@[q] as int] == q,
        decreases n - p,
    {
        let i: usize = order[p] as usize;
        assert(order@[p as int] < nodes.len());
        map[i] = p as u32;
        assert forall|q: int| 0 <= q < p + 1 implies map@[#[trigger] order@[q] as int] == q by {
            if q < p && order@[q] == order@[p as int] {
                lemma_order_injective(nodes, order@, q, p as int);
            }
        }
        p += 1;
    }
    assert forall|i: int| 0 <= i < map@.len() implies (#[trigger] map@[i]) < order@.len()
        && order@[map@[i] as int] == i by {
        assert(order@.contains(i as u32));
        let q = choose|q: int| 0 <= q < order@.len() && order@[q] == i as u32;
        assert(map@[order@[q] as int] == q);
    }
    map
}

proof fn lemma_order_free(entries: Seq<crate::node::MastNodeEntry>, digests: Seq<Word>, k: nat)
    ensures
        crate::forest::order_fault(entries, digests, k) is None <==> forall|i: int|
            0 <= i < k ==> #[trigger] crate::forest::misplaced(entries, digests, i) is None,
    decreases k,
{
    if k > 0 {
        lemma_order_free(entries, digests, (k - 1) as nat);
    }
}

/// Nodes are in dense order if and only if code from elsewhere comes first, by increasing digests,
/// then the blocks, and then everything else, each node behind its children.
pub proof fn law_dense_order(nodes: Seq<NodeModel>)
    requires
        nodes.len() <= u32::MAX,
    ensures
        dense(nodes) <==> {
            &&& forall|i: int, j: int|
                0 <= i < j < nodes.len() ==> class_of((#[trigger] nodes[i]).kind) <= class_of(
                    (#[trigger] nodes[j]).kind,
                )
            &&& forall|i: int, j: int|
                0 <= i < j < nodes.len() && (#[trigger] nodes[i]).kind is External && (
                #[trigger] nodes[j]).kind is External ==> nodes[i].digest.lt_spec(nodes[j].digest)
            &&& forall|i: int| 0 <= i < nodes.len() ==> children_below((#[trigger] nodes[i]).kind, i)
        },
{
    let entries = crate::forest::bare_entries(nodes);
    let digests = crate::forest::digests_of(nodes);
    lemma_order_free(entries, digests, nodes.len());
    if dense(nodes) {
        assert forall|i: int| 0 <= i < nodes.len() implies children_below(
            (#[trigger] nodes[i]).kind,
            i,
        ) by {
            assert(crate::forest::misplaced(entries, digests, i) is None);
        }
        assert forall|i: int, j: int| 0 <= i < j < nodes.len() implies class_of(
            (#[trigger] nodes[i]).kind,
        ) <= class_of((#[trigger] nodes[j]).kind) && (nodes[i].kind is External
            && nodes[j].kind is External ==> nodes[i].digest.lt_spec(nodes[j].digest)) by {
            lemma_dense_pair(nodes, i, j);
        }
    }
    if (forall|i: int, j: int|
        0 <= i < j < nodes.len() ==> class_of((#[trigger] nodes[i]).kind) <= class_of(
            (#[trigger] nodes[j]).kind,
        )) && (forall|i: int, j: int|
        0 <= i < j < nodes.len() && (#[trigger] nodes[i]).kind is External && (
        #[trigger] nodes[j]).kind is External ==> nodes[i].digest.lt_spec(nodes[j].digest)) && (
    forall|i: int| 0 <= i < nodes.len() ==> children_below((#[trigger] nodes[i]).kind, i)) {
        assert forall|i: int| 0 <= i < nodes.len() implies #[trigger] crate::forest::misplaced(
            entries,
            digests,
            i,
        ) is None by {
            assert(children_below(nodes[i].kind, i));
            let c = nodes[i].kind.children();
            if c.len() > 0 {
                assert(c[0].0 < i);
            }
            if c.len() > 1 {
                assert(c[1].0 < i);
            }
            if i > 0 {
                assert(class_of(nodes[i - 1].kind) <= class_of(nodes[i].kind));
            }
        }
    }
}

proof fn lemma_dense_pair(nodes: Seq<NodeModel>, i: int, j: int)
    requires
        dense(nodes),
        0 <= i < j < nodes.len(),
    ensures
        class_of(nodes[i].kind) <= class_of(nodes[j].kind),
        nodes[i].kind is External && nodes[j].kind is External ==> nodes[i].digest.lt_spec(
            nodes[j].digest,
        ),
    decreases j - i,
{
    let entries = crate::forest::bare_entries(nodes);
    let digests = crate::forest::digests_of(nodes);
    lemma_order_free(entries, digests, nodes.len());
    assert(crate::forest::misplaced(entries, digests, j) is None);
    if i < j - 1 {
        lemma_dense_pair(nodes, i, j - 1);
        crate::felt::law_word_order(nodes[i].digest, nodes[j - 1].digest, nodes[j].digest);
    }
}

} // verus!
