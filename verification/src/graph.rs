//! Walking a graph so that every node comes behind its children.

use vstd::prelude::*;

verus! {

/// Consecutive nodes of `path` are parent and child.
pub open spec fn is_path(children: Seq<Seq<u32>>, path: Seq<u32>) -> bool {
    &&& path.len() > 0
    &&& forall|i: int| 0 <= i < path.len() ==> (#[trigger] path[i]) < children.len()
    &&& forall|i: int|
        0 <= i < path.len() - 1 ==> children[#[trigger] path[i] as int].contains(path[i + 1])
}

/// A path leads from a root to `x`.
pub open spec fn reaches(children: Seq<Seq<u32>>, roots: Seq<u32>, x: u32) -> bool {
    exists|path: Seq<u32>|
        #[trigger] is_path(children, path) && roots.contains(path[0]) && path.last() == x
}

/// A path of at least one step leads from `a` to `b`.
pub open spec fn leads_to(children: Seq<Seq<u32>>, a: u32, b: u32) -> bool {
    exists|path: Seq<u32>|
        #[trigger] is_path(children, path) && path.len() >= 2 && path[0] == a && path.last() == b
}

/// A node that can be reached from a root leads back to itself.
pub open spec fn has_cycle(children: Seq<Seq<u32>>, roots: Seq<u32>) -> bool {
    exists|x: u32| #[trigger] reaches(children, roots, x) && leads_to(children, x, x)
}

/// All children are nodes.
pub open spec fn closed(children: Seq<Seq<u32>>) -> bool {
    forall|i: int, j: int|
        0 <= i < children.len() && 0 <= j < children[i].len() ==> (#[trigger] children[i][j])
            < children.len()
}

/// Every node of `order` comes behind its children, and no node comes twice.
pub open spec fn children_first(children: Seq<Seq<u32>>, order: Seq<u32>) -> bool {
    &&& order.no_duplicates()
    &&& forall|p: int| 0 <= p < order.len() ==> (#[trigger] order[p]) < children.len()
    &&& forall|p: int, j: int|
        0 <= p < order.len() && 0 <= j < children[order[p] as int].len() ==> order.take(
            p,
        ).contains(#[trigger] children[order[p] as int][j])
}

/// The nodes that can be reached from the roots, every one behind its children.
pub open spec fn is_post_order(children: Seq<Seq<u32>>, roots: Seq<u32>, order: Seq<u32>) -> bool {
    &&& children_first(children, order)
    &&& forall|i: int| 0 <= i < roots.len() ==> order.contains(#[trigger] roots[i])
    &&& forall|p: int| 0 <= p < order.len() ==> reaches(children, roots, #[trigger] order[p])
}

/// A post-order holds every node that can be reached.
pub proof fn law_post_order_complete(
    children: Seq<Seq<u32>>,
    roots: Seq<u32>,
    order: Seq<u32>,
    x: u32,
)
    requires
        is_post_order(children, roots, order),
    ensures
        order.contains(x) <==> reaches(children, roots, x),
{
    if reaches(children, roots, x) {
        let path = choose|path: Seq<u32>|
            #[trigger] is_path(children, path) && roots.contains(path[0]) && path.last() == x;
        assert(order.contains(path[0])) by {
            let i = choose|i: int| 0 <= i < roots.len() && roots[i] == path[0];
            assert(order.contains(roots[i]));
        }
        lemma_holds_children(children, order);
        lemma_path_in_order(children, order, path, path.len());
        assert(order.contains(path[path.len() - 1]));
    }
    if order.contains(x) {
        let p = choose|p: int| 0 <= p < order.len() && order[p] == x;
        assert(reaches(children, roots, order[p]));
    }
}

/// An order holds the children of what it holds.
#[verifier::opaque]
spec fn holds_children(children: Seq<Seq<u32>>, order: Seq<u32>) -> bool {
    forall|x: u32, child: u32|
        order.contains(x) && #[trigger] children[x as int].contains(child) ==> order.contains(child)
}

proof fn lemma_holds_children(children: Seq<Seq<u32>>, order: Seq<u32>)
    requires
        children_first(children, order),
    ensures
        holds_children(children, order),
{
    reveal(holds_children);
    assert forall|x: u32, child: u32|
        order.contains(x) && #[trigger] children[x as int].contains(child) implies order.contains(
        child,
    ) by {
        lemma_child_in_order(children, order, x, child);
    }
}

proof fn lemma_path_in_order(
    children: Seq<Seq<u32>>,
    order: Seq<u32>,
    path: Seq<u32>,
    k: nat,
)
    requires
        holds_children(children, order),
        is_path(children, path),
        order.contains(path[0]),
        0 < k <= path.len(),
    ensures
        order.contains(path[k - 1]),
    decreases k,
{
    if k > 1 {
        lemma_path_in_order(children, order, path, (k - 1) as nat);
        let i = k - 2;
        reveal(holds_children);
        assert(children[path[i] as int].contains(path[i + 1]));
    }
}

/// The children of what is in an order are in it.
proof fn lemma_child_in_order(children: Seq<Seq<u32>>, order: Seq<u32>, x: u32, child: u32)
    requires
        children_first(children, order),
        order.contains(x),
        children[x as int].contains(child),
    ensures
        order.contains(child),
{
    let p = choose|p: int| 0 <= p < order.len() && order[p] == x;
    let list = children[x as int];
    let j = choose|j: int| 0 <= j < list.len() && list[j] == child;
    assert(order.take(p).contains(children[order[p] as int][j]));
    let front = order.take(p);
    let q = choose|q: int| 0 <= q < front.len() && front[q] == child;
    assert(order[q] == child);
}

/// A graph whose children come before their parents has no cycle.
pub proof fn law_descending_acyclic(children: Seq<Seq<u32>>, roots: Seq<u32>)
    requires
        forall|i: int, j: int|
            0 <= i < children.len() && 0 <= j < children[i].len() ==> (#[trigger] children[i][j])
                < i,
    ensures
        !has_cycle(children, roots),
{
    if has_cycle(children, roots) {
        let x = choose|x: u32| #[trigger] reaches(children, roots, x) && leads_to(children, x, x);
        let path = choose|path: Seq<u32>|
            #[trigger] is_path(children, path) && path.len() >= 2 && path[0] == x && path.last()
                == x;
        lemma_path_falls(children, path, path.len());
    }
}

proof fn lemma_path_falls(children: Seq<Seq<u32>>, path: Seq<u32>, k: nat)
    requires
        forall|i: int, j: int|
            0 <= i < children.len() && 0 <= j < children[i].len() ==> (#[trigger] children[i][j])
                < i,
        is_path(children, path),
        2 <= k <= path.len(),
    ensures
        path[k - 1] < path[0],
    decreases k,
{
    if k > 2 {
        lemma_path_falls(children, path, (k - 1) as nat);
    }
    assert(path[k - 2] < children.len());
    let list = children[path[k - 2] as int];
    assert(list.contains(path[k - 2 + 1]));
    let j = choose|j: int| 0 <= j < list.len() && list[j] == path[k - 1];
    assert(children[path[k - 2] as int][j] < path[k - 2]);
}

/// Where a post-order exists, no cycle can be reached.
pub proof fn law_post_order_acyclic(children: Seq<Seq<u32>>, roots: Seq<u32>, order: Seq<u32>)
    requires
        is_post_order(children, roots, order),
    ensures
        !has_cycle(children, roots),
{
    if has_cycle(children, roots) {
        let x = choose|x: u32| #[trigger] reaches(children, roots, x) && leads_to(children, x, x);
        law_post_order_complete(children, roots, order, x);
        let path = choose|path: Seq<u32>|
            #[trigger] is_path(children, path) && path.len() >= 2 && path[0] == x && path.last()
                == x;
        let p = choose|p: int| 0 <= p < order.len() && order[p] == x;
        lemma_path_descends(children, order, path, p, path.len());
        let q = choose|q: int| 0 <= q < p && order[q] == path[path.len() - 1];
        assert(order[p] == order[q]);
    }
}

proof fn lemma_path_descends(
    children: Seq<Seq<u32>>,
    order: Seq<u32>,
    path: Seq<u32>,
    p: int,
    k: nat,
)
    requires
        children_first(children, order),
        is_path(children, path),
        0 <= p < order.len(),
        order[p] == path[0],
        2 <= k <= path.len(),
    ensures
        exists|q: int| 0 <= q < p && order[q] == path[k - 1],
    decreases k,
{
    let q = if k == 2 {
        p
    } else {
        lemma_path_descends(children, order, path, p, (k - 1) as nat);
        choose|q: int| 0 <= q < p && order[q] == path[k - 2]
    };
    assert(order[q] == path[k - 2]);
    let list = children[path[k - 2] as int];
    let next = path[k - 1];
    assert(list.contains(next));
    let j = choose|j: int| 0 <= j < list.len() && list[j] == next;
    assert(order.take(q).contains(children[order[q] as int][j]));
    let front = order.take(q);
    let r = choose|r: int| 0 <= r < front.len() && front[r] == next;
    assert(order[r] == path[k - 1]);
}

/// The children of each node.
pub open spec fn child_lists(children: Seq<Vec<u32>>) -> Seq<Seq<u32>> {
    Seq::new(children.len(), |i: int| children[i]@)
}

// THE WALK
// ================================================================================================

/// A step of a walk: a node is entered, or left behind everything below it.
#[derive(Clone, Copy, PartialEq, Eq, Structural, Debug)]
pub enum WalkStep {
    Enter(u32),
    Leave(u32),
}

/// A walk on its way: the nodes that wait, the next one last, and the steps that were made. A node
/// that waits to be left is marked.
pub ghost struct Walk {
    pub stack: Seq<(u32, bool)>,
    pub entered: Seq<u32>,
    pub left: Seq<u32>,
    pub steps: Seq<WalkStep>,
}

/// Nodes to be entered, the first one next.
pub open spec fn waiting(list: Seq<u32>) -> Seq<(u32, bool)> {
    Seq::new(list.len(), |p: int| (list[list.len() - 1 - p], false))
}

/// A walk has come back to a node that is still open.
pub open spec fn is_stuck(w: Walk) -> bool {
    &&& w.stack.len() > 0
    &&& !w.stack.last().1
    &&& w.entered.contains(w.stack.last().0)
    &&& !w.left.contains(w.stack.last().0)
}

/// The next step: a node that was left is passed over, one that is new is entered and its children
/// wait before it is left.
pub open spec fn walk_step(children: Seq<Seq<u32>>, w: Walk) -> Walk {
    if w.stack.len() == 0 || is_stuck(w) {
        w
    } else {
        let (x, open) = w.stack.last();
        let below = w.stack.drop_last();
        if open {
            Walk {
                stack: below,
                left: w.left.push(x),
                steps: w.steps.push(WalkStep::Leave(x)),
                ..w
            }
        } else if w.left.contains(x) {
            Walk { stack: below, ..w }
        } else {
            Walk {
                stack: below.push((x, true)) + waiting(children[x as int]),
                entered: w.entered.push(x),
                steps: w.steps.push(WalkStep::Enter(x)),
                ..w
            }
        }
    }
}

/// A walk from the roots after `n` steps.
pub open spec fn walked(children: Seq<Seq<u32>>, roots: Seq<u32>, n: nat) -> Walk
    decreases n,
{
    if n == 0 {
        Walk {
            stack: waiting(roots),
            entered: Seq::empty(),
            left: Seq::empty(),
            steps: Seq::empty(),
        }
    } else {
        walk_step(children, walked(children, roots, (n - 1) as nat))
    }
}

/// The steps of a walk from the roots, first children first, and the nodes in the order in which
/// they are left; a walk that comes back to an open node ends there.
#[verifier::opaque]
pub open spec fn is_walk(
    children: Seq<Seq<u32>>,
    roots: Seq<u32>,
    steps: Seq<WalkStep>,
    order: Seq<u32>,
    cyclic: bool,
) -> bool {
    exists|n: nat|
        {
            let w = #[trigger] walked(children, roots, n);
            w.steps == steps && w.left == order && if cyclic {
                is_stuck(w)
            } else {
                w.stack.len() == 0
            }
        }
}

/// The nodes that are left in steps.
pub open spec fn left_in(steps: Seq<WalkStep>) -> Seq<u32>
    decreases steps.len(),
{
    if steps.len() == 0 {
        Seq::empty()
    } else {
        match steps.last() {
            WalkStep::Leave(x) => left_in(steps.drop_last()).push(x),
            WalkStep::Enter(_) => left_in(steps.drop_last()),
        }
    }
}

/// The nodes that are left in the first steps come first.
pub proof fn lemma_left_prefix(steps: Seq<WalkStep>, j: int)
    requires
        0 <= j <= steps.len(),
    ensures
        left_in(steps.take(j)).len() <= left_in(steps).len(),
        left_in(steps.take(j)) == left_in(steps).take(left_in(steps.take(j)).len() as int),
    decreases steps.len(),
{
    if j < steps.len() {
        let front = steps.drop_last();
        lemma_left_prefix(front, j);
        assert(front.take(j) =~= steps.take(j));
        assert(left_in(front).take(left_in(front.take(j)).len() as int) =~= left_in(steps).take(
            left_in(front.take(j)).len() as int,
        ));
    } else {
        assert(steps.take(j) =~= steps);
        assert(left_in(steps).take(left_in(steps).len() as int) =~= left_in(steps));
    }
}

/// A walk in steps that were worked out.
pub struct Walked {
    pub steps: Vec<WalkStep>,
    pub order: Vec<u32>,
    /// The walk came back to an open node.
    pub cyclic: bool,
}

/// How many of the first `k` nodes have not been seen.
spec fn unseen(seen: Seq<bool>, k: nat) -> nat
    decreases k,
{
    if k == 0 {
        0
    } else {
        unseen(seen, (k - 1) as nat) + if seen[k - 1] {
            0nat
        } else {
            1nat
        }
    }
}

proof fn lemma_unseen_update(seen: Seq<bool>, x: int, k: nat)
    requires
        0 <= x < seen.len(),
        !seen[x],
        k <= seen.len(),
    ensures
        unseen(seen.update(x, true), k) == unseen(seen, k) - if x < k {
            1int
        } else {
            0int
        },
    decreases k,
{
    if k > 0 {
        lemma_unseen_update(seen, x, (k - 1) as nat);
    }
}

/// The parent of the entry at `p`: the nearest open entry below it, or none for a root.
spec fn has_parent(
    children: Seq<Seq<u32>>,
    roots: Seq<u32>,
    stack: Seq<(u32, bool)>,
    p: int,
) -> bool {
    ||| (forall|q: int| 0 <= q < p ==> !(#[trigger] stack[q]).1) && roots.contains(stack[p].0)
    ||| exists|q: int|
        0 <= q < p && (#[trigger] stack[q]).1 && children[stack[q].0 as int].contains(stack[p].0)
            && forall|r: int| q < r < p ==> !(#[trigger] stack[r]).1
}

/// What holds at every step of the walk.
spec fn walk_inv(
    children: Seq<Seq<u32>>,
    roots: Seq<u32>,
    stack: Seq<(u32, bool)>,
    seen: Seq<bool>,
    done: Seq<bool>,
    order: Seq<u32>,
) -> bool {
    &&& closed(children)
    &&& seen.len() == children.len()
    &&& done.len() == children.len()
    &&& children_first(children, order)
    &&& forall|x: int|
        0 <= x < done.len() ==> (#[trigger] done[x] <==> order.contains(x as u32))
    &&& forall|x: int| 0 <= x < done.len() && #[trigger] done[x] ==> seen[x]
    &&& forall|p: int|
        0 <= p < stack.len() ==> (#[trigger] stack[p]).0 < children.len() && reaches(
            children,
            roots,
            stack[p].0,
        )
    &&& forall|p: int|
        0 <= p < stack.len() && (#[trigger] stack[p]).1 ==> seen[stack[p].0 as int]
            && !done[stack[p].0 as int]
    &&& forall|p: int, q: int|
        0 <= p < q < stack.len() && (#[trigger] stack[p]).1 && (#[trigger] stack[q]).1 ==> stack[p].0
            != stack[q].0
    &&& forall|x: int|
        0 <= x < seen.len() && #[trigger] seen[x] && !done[x] ==> stack.contains((x as u32, true))
    &&& forall|p: int, j: int|
        0 <= p < stack.len() && stack[p].1 && 0 <= j < children[stack[p].0 as int].len()
            ==> child_pending(stack, done, p, #[trigger] children[stack[p].0 as int][j])
    &&& forall|p: int| 0 <= p < order.len() ==> reaches(children, roots, #[trigger] order[p])
    &&& forall|p: int|
        0 <= p < stack.len() ==> #[trigger] has_parent(children, roots, stack, p)
}

/// The child is finished, or waits above position `p`.
spec fn child_pending(stack: Seq<(u32, bool)>, done: Seq<bool>, p: int, child: u32) -> bool {
    done[child as int] || exists|q: int|
        p < q < stack.len() && (#[trigger] stack[q]).0 == child
}

proof fn lemma_extend_path(children: Seq<Seq<u32>>, path: Seq<u32>, x: u32)
    requires
        is_path(children, path),
        children[path.last() as int].contains(x),
        x < children.len(),
    ensures
        is_path(children, path.push(x)),
{
    let longer = path.push(x);
    assert forall|i: int| 0 <= i < longer.len() - 1 implies children[#[trigger] longer[i] as int].contains(
        longer[i + 1],
    ) by {
        if i < path.len() - 1 {
            assert(children[path[i] as int].contains(path[i + 1]));
        }
    }
}

/// A node is reached from itself.
pub proof fn lemma_reaches_itself(children: Seq<Seq<u32>>, x: u32)
    requires
        x < children.len(),
    ensures
        reaches(children, seq![x], x),
{
    let path = seq![x];
    assert(is_path(children, path));
    assert(path[0] == x && path.last() == x);
    assert(seq![x].contains(x)) by {
        assert(seq![x][0] == x);
    }
}

proof fn lemma_reaches_child(children: Seq<Seq<u32>>, roots: Seq<u32>, x: u32, c: u32)
    requires
        reaches(children, roots, x),
        children[x as int].contains(c),
        c < children.len(),
    ensures
        reaches(children, roots, c),
{
    let path = choose|path: Seq<u32>|
        #[trigger] is_path(children, path) && roots.contains(path[0]) && path.last() == x;
    lemma_extend_path(children, path, c);
    assert(is_path(children, path.push(c)));
    assert(path.push(c)[0] == path[0]);
}

/// An open entry leads to every open entry above it.
proof fn lemma_open_path(
    children: Seq<Seq<u32>>,
    roots: Seq<u32>,
    stack: Seq<(u32, bool)>,
    m: int,
    p: int,
)
    requires
        0 <= m < p < stack.len(),
        stack[m].1,
        forall|q: int| 0 <= q < stack.len() ==> (#[trigger] stack[q]).0 < children.len(),
        forall|q: int|
            0 <= q < stack.len() ==> #[trigger] has_parent(children, roots, stack, q),
    ensures
        leads_to(children, stack[m].0, stack[p].0),
    decreases p,
{
    assert(has_parent(children, roots, stack, p));
    assert(stack[m].1);
    let q = choose|q: int|
        0 <= q < p && (#[trigger] stack[q]).1 && children[stack[q].0 as int].contains(stack[p].0)
            && forall|r: int| q < r < p ==> !(#[trigger] stack[r]).1;
    assert(q >= m);
    if q == m {
        let path = seq![stack[m].0];
        assert(is_path(children, path));
        lemma_extend_path(children, path, stack[p].0);
        assert(is_path(children, path.push(stack[p].0)));
    } else {
        lemma_open_path(children, roots, stack, m, q);
        let path = choose|path: Seq<u32>|
            #[trigger] is_path(children, path) && path.len() >= 2 && path[0] == stack[m].0
                && path.last() == stack[q].0;
        lemma_extend_path(children, path, stack[p].0);
        assert(is_path(children, path.push(stack[p].0)));
    }
}

/// The parents of entries below the top do not change when the top does.
proof fn lemma_parents_below(
    children: Seq<Seq<u32>>,
    roots: Seq<u32>,
    before: Seq<(u32, bool)>,
    after: Seq<(u32, bool)>,
    n: int,
)
    requires
        0 <= n <= before.len(),
        n <= after.len(),
        before.take(n) == after.take(n),
        forall|p: int|
            0 <= p < before.len() ==> #[trigger] has_parent(children, roots, before, p),
    ensures
        forall|p: int| 0 <= p < n ==> #[trigger] has_parent(children, roots, after, p),
{
    assert forall|p: int| 0 <= p < n implies #[trigger] has_parent(
        children,
        roots,
        after,
        p,
    ) by {
        assert(has_parent(children, roots, before, p));
        assert(forall|q: int| 0 <= q < n ==> before[q] == #[trigger] after[q]) by {
            assert forall|q: int| 0 <= q < n implies before[q] == #[trigger] after[q] by {
                assert(before.take(n)[q] == after.take(n)[q]);
            }
        }
        if !((forall|q: int| 0 <= q < p ==> !(#[trigger] before[q]).1) && roots.contains(
            before[p].0,
        )) {
            let q = choose|q: int|
                0 <= q < p && (#[trigger] before[q]).1 && children[before[q].0 as int].contains(
                    before[p].0,
                ) && forall|r: int| q < r < p ==> !(#[trigger] before[r]).1;
            assert(after[q].1);
        } else {
            assert(forall|q: int| 0 <= q < p ==> !(#[trigger] after[q]).1);
        }
    }
}

/// Walks a graph from the roots.
pub fn walk(children: &Vec<Vec<u32>>, roots: &Vec<u32>) -> (walk: Walked)
    requires
        children@.len() <= u32::MAX,
        closed(child_lists(children@)),
        forall|i: int| 0 <= i < roots@.len() ==> (#[trigger] roots@[i]) < children@.len(),
    ensures
        is_walk(child_lists(children@), roots@, walk.steps@, walk.order@, walk.cyclic),
        walk.order@ == left_in(walk.steps@),
        children_first(child_lists(children@), walk.order@),
        steps_reach(child_lists(children@), roots@, walk.steps@),
        walk.cyclic ==> has_cycle(child_lists(children@), roots@),
        !walk.cyclic ==> is_post_order(child_lists(children@), roots@, walk.order@),
{
    let ghost lists = child_lists(children@);
    let n: usize = children.len();
    let mut seen: Vec<bool> = Vec::new();
    let mut done: Vec<bool> = Vec::new();
    let mut k: usize = 0;
    while k < n
        invariant
            k <= n,
            seen@.len() == k,
            done@.len() == k,
            forall|x: int| 0 <= x < k ==> !(#[trigger] seen@[x]) && !done@[x],
            forall|x: int| 0 <= x < k ==> !(#[trigger] done@[x]),
        decreases n - k,
    {
        seen.push(false);
        done.push(false);
        k += 1;
    }
    let mut order: Vec<u32> = Vec::new();
    let mut steps: Vec<WalkStep> = Vec::new();
    let mut stack: Vec<(u32, bool)> = Vec::new();
    let mut k: usize = roots.len();
    while k > 0
        invariant
            k <= roots@.len(),
            n == lists.len(),
            forall|i: int| 0 <= i < roots@.len() ==> (#[trigger] roots@[i]) < n,
            stack@.len() == roots@.len() - k,
            forall|p: int| 0 <= p < stack@.len() ==> !(#[trigger] stack@[p]).1,
            forall|p: int|
                0 <= p < stack@.len() ==> (#[trigger] stack@[p]).0 == roots@[roots@.len() - 1 - p],
        decreases k,
    {
        k -= 1;
        stack.push((roots[k], false));
    }
    proof {
        assert forall|p: int| 0 <= p < stack@.len() implies (#[trigger] stack@[p]).0 < lists.len()
            && reaches(lists, roots@, stack@[p].0) && has_parent(lists, roots@, stack@, p) by {
            let r = roots@[roots@.len() - 1 - p];
            assert(stack@[p].0 == r);
            assert(roots@.contains(r));
            let path = seq![r];
            assert(is_path(lists, path));
            assert(path[0] == r && path.last() == r);
        }
        assert forall|i: int| 0 <= i < roots@.len() implies root_waits(
            stack@,
            done@,
            #[trigger] roots@[i],
        ) by {
            assert(stack@[roots@.len() - 1 - i].0 == roots@[i]);
        }
        assert(stack@ =~= waiting(roots@));
    }
    let ghost mut entered: Seq<u32> = Seq::empty();
    proof {
        lemma_walk_starts(
            lists,
            roots@,
            Walk { stack: stack@, entered, left: order@, steps: steps@ },
            seen@,
        );
    }
    while stack.len() > 0
        invariant
            n == children@.len() == lists.len(),
            n <= u32::MAX,
            lists == child_lists(children@),
            walk_inv(lists, roots@, stack@, seen@, done@, order@),
            forall|i: int|
                0 <= i < roots@.len() ==> root_waits(stack@, done@, #[trigger] roots@[i]),
            forall|i: int| 0 <= i < roots@.len() ==> (#[trigger] roots@[i]) < n,
            on_walk(
                lists,
                roots@,
                Walk { stack: stack@, entered, left: order@, steps: steps@ },
                seen@,
            ),
        decreases unseen(seen@, n as nat), stack@.len(),
    {
        let ghost before = stack@;
        let ghost was_done = done@;
        let ghost was_seen = seen@;
        let ghost was = Walk { stack: stack@, entered, left: order@, steps: steps@ };
        let (x, expanded) = stack[stack.len() - 1];
        let ghost top = before.len() - 1;
        assert(before[top] == (x, expanded));
        assert(has_parent(lists, roots@, before, top));
        stack.pop();
        assert(stack@ =~= before.take(top));
        proof {
            assert(x as int as u32 == x);
            assert(done@[x as int] <==> order@.contains(x));
            assert(before.drop_last() =~= stack@);
            assert(reaches(lists, roots@, before[top].0));
        }
        if expanded {
            done[x as usize] = true;
            let ghost earlier = order@;
            order.push(x);
            steps.push(WalkStep::Leave(x));
            proof {
                lemma_walk_leaves(lists, roots@, was, seen@, x);
                lemma_finish(lists, roots@, before, was_seen, was_done, earlier, x);
                assert(done@ =~= was_done.update(x as int, true));
                assert(stack@ =~= before.drop_last());
                assert forall|i: int| 0 <= i < roots@.len() implies root_waits(
                    stack@,
                    done@,
                    #[trigger] roots@[i],
                ) by {
                    assert(root_waits(before, was_done, roots@[i]));
                    lemma_root_still_waits(before, was_done, done@, roots@[i]);
                }
            }
        } else if done[x as usize] {
            proof {
                lemma_walk_skips(lists, roots@, was, seen@, x);
                lemma_skip(lists, roots@, before, was_seen, was_done, order@, x);
                assert(stack@ =~= before.drop_last());
                assert forall|i: int| 0 <= i < roots@.len() implies root_waits(
                    stack@,
                    done@,
                    #[trigger] roots@[i],
                ) by {
                    assert(root_waits(before, was_done, roots@[i]));
                    lemma_root_still_waits(before, was_done, done@, roots@[i]);
                }
            }
        } else if seen[x as usize] {
            proof {
                assert(before.contains((x, true)));
                let m = choose|m: int| 0 <= m < before.len() && before[m] == (x, true);
                assert(m < top);
                lemma_open_path(lists, roots@, before, m, top);
                assert(reaches(lists, roots@, x) && leads_to(lists, x, x));
                lemma_walk_ends(lists, roots@, was, seen@, true);
            }
            return Walked { steps, order, cyclic: true };
        } else {
            seen[x as usize] = true;
            steps.push(WalkStep::Enter(x));
            stack.push((x, true));
            let ghost opened = stack@;
            proof {
                lemma_unseen_update(was_seen, x as int, n as nat);
                assert(seen@ =~= was_seen.update(x as int, true));
                assert(opened =~= before.drop_last().push((x, true)));
            }
            let list = &children[x as usize];
            assert(list@ == lists[x as int]);
            let mut k: usize = list.len();
            while k > 0
                invariant
                    k <= list@.len(),
                    stack@.len() == opened.len() + list@.len() - k,
                    stack@.take(opened.len() as int) =~= opened,
                    forall|p: int|
                        opened.len() <= p < stack@.len() ==> !(#[trigger] stack@[p]).1
                            && stack@[p].0 == list@[list@.len() - 1 - (p - opened.len())],
                decreases k,
            {
                k -= 1;
                stack.push((list[k], false));
            }
            proof {
                entered = entered.push(x);
                assert(stack@ =~= before.drop_last().push((x, true)) + waiting(lists[x as int]));
                lemma_walk_enters(lists, roots@, was, was_seen, x);
                lemma_expand(
                    lists,
                    roots@,
                    before,
                    stack@,
                    was_seen,
                    was_done,
                    order@,
                    x,
                );
                assert forall|i: int| 0 <= i < roots@.len() implies root_waits(
                    stack@,
                    done@,
                    #[trigger] roots@[i],
                ) by {
                    assert(root_waits(before, was_done, roots@[i]));
                    if !done@[roots@[i] as int] {
                        let q = choose|q: int|
                            0 <= q < before.len() && (#[trigger] before[q]).0 == roots@[i];
                        assert(stack@.take(opened.len() as int)[q] == opened[q]);
                        assert(stack@[q].0 == roots@[i]);
                    }
                }
            }
        }
    }
    proof {
        assert forall|i: int| 0 <= i < roots@.len() implies order@.contains(#[trigger] roots@[i]) by {
            assert(root_waits(stack@, done@, roots@[i]));
            assert(done@[roots@[i] as int]);
        }
        lemma_walk_ends(
            lists,
            roots@,
            Walk { stack: stack@, entered, left: order@, steps: steps@ },
            seen@,
            false,
        );
    }
    Walked { steps, order, cyclic: false }
}

/// The nodes that can be reached from the roots, every node behind its children, the subtree of an
/// earlier child before that of a later one. `None` if a cycle can be reached.
pub fn post_order(children: &Vec<Vec<u32>>, roots: &Vec<u32>) -> (order: Option<Vec<u32>>)
    requires
        children@.len() <= u32::MAX,
        closed(child_lists(children@)),
        forall|i: int| 0 <= i < roots@.len() ==> (#[trigger] roots@[i]) < children@.len(),
    ensures
        match order {
            Some(order) => is_post_order(child_lists(children@), roots@, order@) && is_left_order(
                child_lists(children@),
                roots@,
                order@,
            ),
            None => has_cycle(child_lists(children@), roots@),
        },
{
    let walk = walk(children, roots);
    assert(is_walk(child_lists(children@), roots@, walk.steps@, walk.order@, walk.cyclic));
    if walk.cyclic {
        None
    } else {
        Some(walk.order)
    }
}

/// The order in which a walk from the roots leaves the nodes.
pub open spec fn is_left_order(
    children: Seq<Seq<u32>>,
    roots: Seq<u32>,
    order: Seq<u32>,
) -> bool {
    exists|steps: Seq<WalkStep>| #[trigger] is_walk(children, roots, steps, order, false)
}

/// Steps are made at nodes that can be reached.
pub open spec fn steps_reach(
    children: Seq<Seq<u32>>,
    roots: Seq<u32>,
    steps: Seq<WalkStep>,
) -> bool {
    forall|j: int|
        0 <= j < steps.len() ==> node_of(#[trigger] steps[j]) < children.len() && reaches(
            children,
            roots,
            node_of(steps[j]),
        )
}

/// The node of a step.
pub open spec fn node_of(step: WalkStep) -> u32 {
    match step {
        WalkStep::Enter(x) => x,
        WalkStep::Leave(x) => x,
    }
}

/// From the same roots a walk goes the same way: the steps and the order are determined.
pub proof fn law_walk_is_determined(
    children: Seq<Seq<u32>>,
    roots: Seq<u32>,
    a: Seq<WalkStep>,
    a_order: Seq<u32>,
    a_cyclic: bool,
    b: Seq<WalkStep>,
    b_order: Seq<u32>,
    b_cyclic: bool,
)
    requires
        is_walk(children, roots, a, a_order, a_cyclic),
        is_walk(children, roots, b, b_order, b_cyclic),
    ensures
        a == b,
        a_order == b_order,
        a_cyclic == b_cyclic,
{
    reveal(is_walk);
    let n = choose|n: nat|
        {
            let w = #[trigger] walked(children, roots, n);
            w.steps == a && w.left == a_order && if a_cyclic {
                is_stuck(w)
            } else {
                w.stack.len() == 0
            }
        };
    let m = choose|m: nat|
        {
            let w = #[trigger] walked(children, roots, m);
            w.steps == b && w.left == b_order && if b_cyclic {
                is_stuck(w)
            } else {
                w.stack.len() == 0
            }
        };
    if n <= m {
        lemma_walk_stays(children, roots, n, m);
    } else {
        lemma_walk_stays(children, roots, m, n);
    }
}

/// A walk that ended stays where it is.
proof fn lemma_walk_stays(children: Seq<Seq<u32>>, roots: Seq<u32>, n: nat, m: nat)
    requires
        n <= m,
        walked(children, roots, n).stack.len() == 0 || is_stuck(walked(children, roots, n)),
    ensures
        walked(children, roots, m) == walked(children, roots, n),
    decreases m - n,
{
    if n < m {
        lemma_walk_stays(children, roots, n, (m - 1) as nat);
    }
}


/// A walk is on its way; `seen` marks the nodes that were entered.
#[verifier::opaque]
spec fn on_walk(
    children: Seq<Seq<u32>>,
    roots: Seq<u32>,
    w: Walk,
    seen: Seq<bool>,
) -> bool {
    &&& exists|n: nat| #[trigger] walked(children, roots, n) == w
    &&& forall|x: int|
        0 <= x < seen.len() ==> (#[trigger] seen[x] <==> w.entered.contains(x as u32))
    &&& w.left == left_in(w.steps)
    &&& steps_reach(children, roots, w.steps)
}

proof fn lemma_walk_starts(
    children: Seq<Seq<u32>>,
    roots: Seq<u32>,
    w: Walk,
    seen: Seq<bool>,
)
    requires
        w.stack == waiting(roots),
        w.entered.len() == 0,
        w.left.len() == 0,
        w.steps.len() == 0,
        forall|x: int| 0 <= x < seen.len() ==> !#[trigger] seen[x],
    ensures
        on_walk(children, roots, w, seen),
{
    reveal(on_walk);
    assert(w.entered =~= Seq::empty());
    assert(w.left =~= Seq::empty());
    assert(w.steps =~= Seq::empty());
    assert(walked(children, roots, 0) == w);
}

proof fn lemma_walk_leaves(
    children: Seq<Seq<u32>>,
    roots: Seq<u32>,
    w: Walk,
    seen: Seq<bool>,
    x: u32,
)
    requires
        on_walk(children, roots, w, seen),
        w.stack.len() > 0,
        w.stack.last() == (x, true),
        x < children.len(),
        reaches(children, roots, x),
    ensures
        on_walk(
            children,
            roots,
            Walk {
                stack: w.stack.drop_last(),
                left: w.left.push(x),
                steps: w.steps.push(WalkStep::Leave(x)),
                ..w
            },
            seen,
        ),
{
    reveal(on_walk);
    let n = choose|n: nat| #[trigger] walked(children, roots, n) == w;
    let next = walk_step(children, w);
    assert(walked(children, roots, n + 1) == next);
    assert(next.steps.drop_last() =~= w.steps);
    assert forall|j: int| 0 <= j < next.steps.len() implies node_of(#[trigger] next.steps[j])
        < children.len() && reaches(children, roots, node_of(next.steps[j])) by {
        if j < w.steps.len() {
            assert(next.steps[j] == w.steps[j]);
        }
    }
}

proof fn lemma_walk_skips(
    children: Seq<Seq<u32>>,
    roots: Seq<u32>,
    w: Walk,
    seen: Seq<bool>,
    x: u32,
)
    requires
        on_walk(children, roots, w, seen),
        w.stack.len() > 0,
        w.stack.last() == (x, false),
        w.left.contains(x),
    ensures
        on_walk(children, roots, Walk { stack: w.stack.drop_last(), ..w }, seen),
{
    reveal(on_walk);
    let n = choose|n: nat| #[trigger] walked(children, roots, n) == w;
    assert(walked(children, roots, n + 1) == walk_step(children, w));
}

proof fn lemma_walk_enters(
    children: Seq<Seq<u32>>,
    roots: Seq<u32>,
    w: Walk,
    seen: Seq<bool>,
    x: u32,
)
    requires
        on_walk(children, roots, w, seen),
        w.stack.len() > 0,
        w.stack.last() == (x, false),
        !w.left.contains(x),
        x < seen.len(),
        seen.len() <= children.len(),
        children.len() <= u32::MAX,
        !seen[x as int],
        reaches(children, roots, x),
    ensures
        on_walk(
            children,
            roots,
            Walk {
                stack: w.stack.drop_last().push((x, true)) + waiting(children[x as int]),
                entered: w.entered.push(x),
                steps: w.steps.push(WalkStep::Enter(x)),
                ..w
            },
            seen.update(x as int, true),
        ),
{
    reveal(on_walk);
    let n = choose|n: nat| #[trigger] walked(children, roots, n) == w;
    let next = walk_step(children, w);
    assert(x as int as u32 == x);
    assert(!w.entered.contains(x));
    assert(walked(children, roots, n + 1) == next);
    assert(next.steps.drop_last() =~= w.steps);
    assert forall|j: int| 0 <= j < next.steps.len() implies node_of(#[trigger] next.steps[j])
        < children.len() && reaches(children, roots, node_of(next.steps[j])) by {
        if j < w.steps.len() {
            assert(next.steps[j] == w.steps[j]);
        }
    }
    let now = seen.update(x as int, true);
    assert forall|y: int| 0 <= y < now.len() implies (#[trigger] now[y] <==> next.entered.contains(
        y as u32,
    )) by {
        assert(seen[y] <==> w.entered.contains(y as u32));
        if y == x {
            assert(next.entered[w.entered.len() as int] == x);
        } else if w.entered.contains(y as u32) {
            let q = choose|q: int| 0 <= q < w.entered.len() && w.entered[q] == y as u32;
            assert(next.entered[q] == y as u32);
        } else if next.entered.contains(y as u32) {
            let q = choose|q: int| 0 <= q < next.entered.len() && next.entered[q] == y as u32;
            assert(q == w.entered.len());
        }
    }
}

proof fn lemma_walk_ends(
    children: Seq<Seq<u32>>,
    roots: Seq<u32>,
    w: Walk,
    seen: Seq<bool>,
    cyclic: bool,
)
    requires
        on_walk(children, roots, w, seen),
        if cyclic {
            &&& w.stack.len() > 0
            &&& !w.stack.last().1
            &&& w.stack.last().0 < seen.len()
            &&& seen[w.stack.last().0 as int]
            &&& !w.left.contains(w.stack.last().0)
        } else {
            w.stack.len() == 0
        },
    ensures
        is_walk(children, roots, w.steps, w.left, cyclic),
        w.left == left_in(w.steps),
        steps_reach(children, roots, w.steps),
{
    reveal(on_walk);
    reveal(is_walk);
    let n = choose|n: nat| #[trigger] walked(children, roots, n) == w;
    if cyclic {
        let x = w.stack.last().0;
        assert(x as int as u32 == x);
        assert(seen[x as int] <==> w.entered.contains(x));
    }
    assert(walked(children, roots, n) == w);
}

spec fn root_waits(stack: Seq<(u32, bool)>, done: Seq<bool>, root: u32) -> bool {
    done[root as int] || exists|q: int| 0 <= q < stack.len() && (#[trigger] stack[q]).0 == root
}

proof fn lemma_root_still_waits(
    before: Seq<(u32, bool)>,
    was_done: Seq<bool>,
    done: Seq<bool>,
    root: u32,
)
    requires
        before.len() > 0,
        root < was_done.len(),
        done.len() == was_done.len(),
        root_waits(before, was_done, root),
        done[before.last().0 as int],
        before.last().0 < done.len(),
        forall|x: int| 0 <= x < done.len() && #[trigger] was_done[x] ==> done[x],
    ensures
        root_waits(before.drop_last(), done, root),
{
    if !was_done[root as int] {
        let q = choose|q: int| 0 <= q < before.len() && (#[trigger] before[q]).0 == root;
        if q < before.len() - 1 {
            assert(before.drop_last()[q].0 == root);
        }
    }
}

proof fn lemma_skip(
    children: Seq<Seq<u32>>,
    roots: Seq<u32>,
    before: Seq<(u32, bool)>,
    seen: Seq<bool>,
    done: Seq<bool>,
    order: Seq<u32>,
    x: u32,
)
    requires
        walk_inv(children, roots, before, seen, done, order),
        before.len() > 0,
        before.last() == (x, false),
        done[x as int],
    ensures
        walk_inv(children, roots, before.drop_last(), seen, done, order),
{
    let after = before.drop_last();
    let top = before.len() - 1;
    assert(before.take(top) =~= after.take(top));
    lemma_parents_below(children, roots, before, after, top);
    assert forall|y: int| 0 <= y < seen.len() && #[trigger] seen[y] && !done[y] implies after.contains(
        (y as u32, true),
    ) by {
        let q = choose|q: int| 0 <= q < before.len() && before[q] == (y as u32, true);
        assert(q < top);
        assert(after[q] == (y as u32, true));
    }
    assert forall|p: int, j: int|
        0 <= p < after.len() && after[p].1 && 0 <= j < children[after[p].0 as int].len() implies child_pending(
        after, done, p, #[trigger] children[after[p].0 as int][j]) by {
        let c = children[before[p].0 as int][j];
        assert(child_pending(before, done, p, c));
        if !done[c as int] {
            let q = choose|q: int| p < q < before.len() && (#[trigger] before[q]).0 == c;
            assert(q < top);
            assert(after[q].0 == c);
        }
    }
}

proof fn lemma_finish(
    children: Seq<Seq<u32>>,
    roots: Seq<u32>,
    before: Seq<(u32, bool)>,
    seen: Seq<bool>,
    done: Seq<bool>,
    order: Seq<u32>,
    x: u32,
)
    requires
        walk_inv(children, roots, before, seen, done, order),
        before.len() > 0,
        before.last() == (x, true),
        children.len() <= u32::MAX,
    ensures
        walk_inv(
            children,
            roots,
            before.drop_last(),
            seen,
            done.update(x as int, true),
            order.push(x),
        ),
{
    let after = before.drop_last();
    let top = before.len() - 1;
    let now = done.update(x as int, true);
    let longer = order.push(x);
    assert(before[top] == (x, true));
    assert(before.take(top) =~= after.take(top));
    lemma_parents_below(children, roots, before, after, top);
    assert(!order.contains(x)) by {
        assert(!done[x as int]);
        assert(x as int as u32 == x);
    }
    assert forall|p: int, j: int|
        0 <= p < longer.len() && 0 <= j < children[longer[p] as int].len() implies longer.take(
        p,
    ).contains(#[trigger] children[longer[p] as int][j]) by {
        let c = children[longer[p] as int][j];
        if p < order.len() {
            assert(order[p] == longer[p]);
            assert(order.take(p).contains(children[order[p] as int][j]));
            assert(longer.take(p) =~= order.take(p));
        } else {
            assert(longer[p] == x);
            assert(before[top].0 == x);
            assert(child_pending(before, done, top, children[before[top].0 as int][j]));
            assert(done[c as int]);
            assert(c as int as u32 == c);
            assert(order.contains(c));
            assert(longer.take(p) =~= order);
        }
    }
    assert forall|y: int| 0 <= y < now.len() implies (#[trigger] now[y] <==> longer.contains(
        y as u32,
    )) by {
        assert(done[y] <==> order.contains(y as u32));
        if y == x {
            assert(longer[order.len() as int] == x);
        } else if done[y] {
            let q = choose|q: int| 0 <= q < order.len() && order[q] == y as u32;
            assert(longer[q] == y as u32);
        } else if longer.contains(y as u32) {
            let q = choose|q: int| 0 <= q < longer.len() && longer[q] == y as u32;
            if q < order.len() {
                assert(order[q] == y as u32);
            }
        }
    }
    assert forall|y: int| 0 <= y < seen.len() && #[trigger] seen[y] && !now[y] implies after.contains(
        (y as u32, true),
    ) by {
        assert(!done[y]);
        let q = choose|q: int| 0 <= q < before.len() && before[q] == (y as u32, true);
        assert(q < top);
        assert(after[q] == (y as u32, true));
    }
    assert forall|p: int, j: int|
        0 <= p < after.len() && after[p].1 && 0 <= j < children[after[p].0 as int].len() implies child_pending(
        after, now, p, #[trigger] children[after[p].0 as int][j]) by {
        let c = children[before[p].0 as int][j];
        assert(child_pending(before, done, p, c));
        if !now[c as int] {
            let q = choose|q: int| p < q < before.len() && (#[trigger] before[q]).0 == c;
            assert(q < top);
            assert(after[q].0 == c);
        }
    }
    assert forall|p: int| 0 <= p < after.len() && (#[trigger] after[p]).1 implies seen[after[p].0 as int]
        && !now[after[p].0 as int] by {
        assert(before[p].1);
        assert(before[p].0 != before[top].0);
    }
    assert(reaches(children, roots, before[top].0));
}

proof fn lemma_expand(
    children: Seq<Seq<u32>>,
    roots: Seq<u32>,
    before: Seq<(u32, bool)>,
    after: Seq<(u32, bool)>,
    seen: Seq<bool>,
    done: Seq<bool>,
    order: Seq<u32>,
    x: u32,
)
    requires
        walk_inv(children, roots, before, seen, done, order),
        before.len() > 0,
        before.last() == (x, false),
        !seen[x as int],
        after.len() == before.len() + children[x as int].len(),
        after.take(before.len() as int) == before.drop_last().push((x, true)),
        forall|p: int|
            before.len() <= p < after.len() ==> !(#[trigger] after[p]).1 && after[p].0
                == children[x as int][children[x as int].len() - 1 - (p - before.len())],
    ensures
        walk_inv(children, roots, after, seen.update(x as int, true), done, order),
{
    let top = before.len() - 1;
    let now = seen.update(x as int, true);
    let list = children[x as int];
    assert(before[top] == (x, false));
    assert(!done[x as int]);
    assert forall|p: int| 0 <= p < top implies #[trigger] after[p] == before[p] by {
        assert(after.take(before.len() as int)[p] == before.drop_last().push((x, true))[p]);
    }
    assert(after[top] == (x, true)) by {
        assert(after.take(before.len() as int)[top] == before.drop_last().push((x, true))[top]);
    }
    assert(before.take(top) =~= after.take(top));
    lemma_parents_below(children, roots, before, after, top);
    assert(has_parent(children, roots, before, top));
    assert(has_parent(children, roots, after, top)) by {
        if !((forall|q: int| 0 <= q < top ==> !(#[trigger] before[q]).1) && roots.contains(x)) {
            let q = choose|q: int|
                0 <= q < top && (#[trigger] before[q]).1 && children[before[q].0 as int].contains(x)
                    && forall|r: int| q < r < top ==> !(#[trigger] before[r]).1;
            assert(after[q].1);
        } else {
            assert(forall|q: int| 0 <= q < top ==> !(#[trigger] after[q]).1);
        }
    }
    assert forall|p: int| before.len() <= p < after.len() implies has_parent(
        children,
        roots,
        after,
        p,
    ) && reaches(children, roots, (#[trigger] after[p]).0) && after[p].0 < children.len() by {
        let j = list.len() - 1 - (p - before.len());
        assert(after[p].0 == children[x as int][j]);
        assert(children[x as int].contains(after[p].0));
        assert(after[top].1 && forall|r: int| top < r < p ==> !(#[trigger] after[r]).1);
        assert(reaches(children, roots, before[top].0));
        lemma_reaches_child(children, roots, x, after[p].0);
    }
    assert forall|p: int| 0 <= p < after.len() implies #[trigger] has_parent(
        children,
        roots,
        after,
        p,
    ) by {
        if p > top {
            assert(after[p].0 == after[p].0);
        }
    }
    assert forall|p: int| 0 <= p < after.len() implies (#[trigger] after[p]).0 < children.len()
        && reaches(children, roots, after[p].0) by {
        if p < top {
            assert(after[p] == before[p]);
        } else if p == top {
            assert(reaches(children, roots, before[top].0));
        }
    }
    assert forall|p: int| 0 <= p < after.len() && (#[trigger] after[p]).1 implies now[after[p].0 as int]
        && !done[after[p].0 as int] by {
        if p < top {
            assert(before[p].1);
        }
    }
    assert forall|p: int, q: int|
        0 <= p < q < after.len() && (#[trigger] after[p]).1 && (#[trigger] after[q]).1 implies after[p].0
        != after[q].0 by {
        assert(q <= top);
        assert(before[p].1);
        if q == top {
            assert(seen[before[p].0 as int]);
        } else {
            assert(before[q].1);
        }
    }
    assert forall|y: int| 0 <= y < now.len() && #[trigger] now[y] && !done[y] implies after.contains(
        (y as u32, true),
    ) by {
        if y == x {
            assert(after[top] == (y as u32, true));
        } else {
            assert(seen[y]);
            let q = choose|q: int| 0 <= q < before.len() && before[q] == (y as u32, true);
            assert(q < top);
            assert(after[q] == (y as u32, true));
        }
    }
    assert forall|p: int, j: int|
        0 <= p < after.len() && after[p].1 && 0 <= j < children[after[p].0 as int].len() implies child_pending(
        after, done, p, #[trigger] children[after[p].0 as int][j]) by {
        let c = children[after[p].0 as int][j];
        if p == top {
            let q = before.len() + list.len() - 1 - j;
            assert(after[q].0 == c);
        } else {
            assert(p < top);
            assert(child_pending(before, done, p, children[before[p].0 as int][j]));
            if !done[c as int] {
                let q = choose|q: int| p < q < before.len() && (#[trigger] before[q]).0 == c;
                assert(after[q].0 == c);
            }
        }
    }
}

} // verus!
