//! Walking a document from its root: every node that is there, the last child first.
use vstd::prelude::*;

use crate::a11y::{lemma_walk_grows, walkable, walked, walked_all, A11yModel, Shown, Walk};
use crate::coherence::ancestor;
use crate::ir::{Document, MutationModel, Tree};
use crate::layout::{lemma_plan_grows, plannable, planned, planned_all, Page, PlanModel, Planned};
use crate::node::NodeId;

verus! {

/// The nodes that come off the stack and are there, in the order they do, each followed by its
/// children; `None` where the stack is not empty after `n` steps.
pub open spec fn visits(t: Tree, stack: Seq<NodeId>, n: nat) -> Option<Seq<NodeId>>
    decreases n,
{
    if stack.len() == 0 {
        Some(Seq::empty())
    } else if n == 0 {
        None
    } else {
        let id = stack.last();
        let rest = stack.drop_last();
        if t.nodes.dom().contains(id) {
            match visits(t, rest + t.nodes[id].children, (n - 1) as nat) {
                Some(v) => Some(seq![id] + v),
                None => None,
            }
        } else {
            visits(t, rest, (n - 1) as nat)
        }
    }
}

/// Where a walk starts.
pub open spec fn first_stack(t: Tree) -> Seq<NodeId> {
    match t.root {
        Some(root) => seq![root],
        None => Seq::empty(),
    }
}

/// The walk from the root comes to an end: no chain of children leads back to its start.
pub open spec fn finite(t: Tree) -> bool {
    exists|n: u64| #[trigger] visits(t, first_stack(t), n as nat) is Some
}

/// The nodes in the order of the walk.
pub open spec fn walk_order(t: Tree) -> Seq<NodeId> {
    visits(
        t,
        first_stack(t),
        (choose|n: u64| #[trigger] visits(t, first_stack(t), n as nat) is Some) as nat,
    )->0
}

proof fn lemma_visits_more(t: Tree, stack: Seq<NodeId>, n: nat, m: nat)
    requires
        visits(t, stack, n) is Some,
        n <= m,
    ensures
        visits(t, stack, m) == visits(t, stack, n),
    decreases n,
{
    if stack.len() > 0 {
        let id = stack.last();
        let rest = stack.drop_last();
        if t.nodes.dom().contains(id) {
            lemma_visits_more(t, rest + t.nodes[id].children, (n - 1) as nat, (m - 1) as nat);
        } else {
            lemma_visits_more(t, rest, (n - 1) as nat, (m - 1) as nat);
        }
    }
}

/// The nodes of a document in the order of the walk.
pub fn walk(doc: &Document) -> (r: Vec<NodeId>)
    requires
        finite(doc@.tree),
    ensures
        r@ == walk_order(doc@.tree),
{
    let ghost t = doc@.tree;
    let ghost total: u64 = choose|n: u64| #[trigger] visits(t, first_stack(t), n as nat) is Some;
    let ghost mut left: nat = total as nat;
    let ghost goal = walk_order(t);
    let mut out: Vec<NodeId> = Vec::new();
    let mut stack: Vec<NodeId> = Vec::new();
    match doc.root() {
        Some(root) => {
            stack.push(root);
        },
        None => {},
    }
    assert(stack@ =~= first_stack(t));
    assert(out@ + goal =~= goal);
    while stack.len() > 0
        invariant
            t == doc@.tree,
            visits(t, stack@, left) is Some,
            out@ + visits(t, stack@, left)->0 == goal,
        decreases left,
    {
        let ghost was = stack@;
        let id = match stack.pop() {
            Some(id) => id,
            None => {
                return out;
            },
        };
        assert(stack@ =~= was.drop_last());
        match doc.get(id) {
            Some(node) => {
                let ghost so_far = out@;
                out.push(id);
                let ghost base = stack@;
                let mut i: usize = 0;
                assert(base =~= base + node.children@.take(0));
                while i < node.children.len()
                    invariant
                        i <= node.children@.len(),
                        stack@ == base + node.children@.take(i as int),
                    decreases node.children.len() - i,
                {
                    stack.push(node.children[i]);
                    i += 1;
                    assert(stack@ =~= base + node.children@.take(i as int));
                }
                assert(node.children@.take(i as int) =~= node.children@);
                proof {
                    let v = visits(t, stack@, (left - 1) as nat)->0;
                    assert(out@ + v =~= so_far + (seq![id] + v));
                    left = (left - 1) as nat;
                }
            },
            None => {
                proof {
                    left = (left - 1) as nat;
                }
            },
        }
    }
    assert(stack@ =~= Seq::empty());
    assert(out@ + Seq::<NodeId>::empty() =~= out@);
    out
}

proof fn lemma_visits_inside(t: Tree, stack: Seq<NodeId>, n: nat, i: int)
    requires
        visits(t, stack, n) is Some,
        0 <= i < (visits(t, stack, n)->0).len(),
    ensures
        t.nodes.dom().contains((visits(t, stack, n)->0)[i]),
    decreases n,
{
    let id = stack.last();
    let rest = stack.drop_last();
    if t.nodes.dom().contains(id) {
        if i > 0 {
            lemma_visits_inside(t, rest + t.nodes[id].children, (n - 1) as nat, i - 1);
        }
    } else {
        lemma_visits_inside(t, rest, (n - 1) as nat, i);
    }
}

/// The walk meets only nodes that are there.
pub proof fn lemma_walk_inside(t: Tree, i: int)
    requires
        finite(t),
        0 <= i < walk_order(t).len(),
    ensures
        t.nodes.dom().contains(walk_order(t)[i]),
{
    let n: u64 = choose|n: u64| #[trigger] visits(t, first_stack(t), n as nat) is Some;
    lemma_visits_inside(t, first_stack(t), n as nat, i);
}

/// Following the parent links from every node comes to an end.
pub open spec fn rooted(t: Tree) -> bool {
    forall|id: NodeId| #[trigger] t.nodes.dom().contains(id) ==> ends(t, id)
}

/// Following the parent links from a node comes to an end.
pub open spec fn ends(t: Tree, id: NodeId) -> bool {
    exists|k: nat| #[trigger] ancestor(t, id, k) is None
}

/// Behind the end of a chain of parents there is nothing.
pub proof fn lemma_ancestor_ends(t: Tree, id: NodeId, j: nat, k: nat)
    requires
        ancestor(t, id, j) is None,
        j <= k,
    ensures
        ancestor(t, id, k) is None,
    decreases k,
{
    if j < k {
        lemma_ancestor_ends(t, id, j, (k - 1) as nat);
    }
}

proof fn lemma_ancestor_same(a: Tree, b: Tree, id: NodeId, k: nat)
    requires
        same_shape(a, b),
    ensures
        ancestor(a, id, k) == ancestor(b, id, k),
    decreases k,
{
    if k > 0 {
        lemma_ancestor_same(a, b, id, (k - 1) as nat);
    }
}

/// Trees of the same shape are rooted alike.
pub proof fn lemma_same_rooted(a: Tree, b: Tree)
    requires
        same_shape(a, b),
        rooted(a),
    ensures
        rooted(b),
{
    assert forall|id: NodeId| #[trigger] b.nodes.dom().contains(id) implies ends(b, id) by {
        assert(a.nodes.dom().contains(id));
        assert(ends(a, id));
        let k: nat = choose|k: nat| #[trigger] ancestor(a, id, k) is None;
        lemma_ancestor_same(a, b, id, k);
        assert(ancestor(b, id, k) is None);
    }
}

/// Two trees have the same nodes, kinds, links and root.
pub open spec fn same_shape(a: Tree, b: Tree) -> bool {
    &&& a.root == b.root
    &&& a.nodes.dom() == b.nodes.dom()
    &&& forall|id: NodeId| #[trigger]
        a.nodes.dom().contains(id) ==> {
            &&& a.nodes[id].children == b.nodes[id].children
            &&& a.nodes[id].parent == b.nodes[id].parent
            &&& a.nodes[id].kind == b.nodes[id].kind
            &&& a.nodes[id].callbacks == b.nodes[id].callbacks
            &&& a.nodes[id].bindings == b.nodes[id].bindings
        }
}

proof fn lemma_visits_same(a: Tree, b: Tree, stack: Seq<NodeId>, n: nat)
    requires
        same_shape(a, b),
    ensures
        visits(a, stack, n) == visits(b, stack, n),
    decreases n,
{
    if stack.len() > 0 && n > 0 {
        let id = stack.last();
        let rest = stack.drop_last();
        if a.nodes.dom().contains(id) {
            lemma_visits_same(a, b, rest + a.nodes[id].children, (n - 1) as nat);
        } else {
            lemma_visits_same(a, b, rest, (n - 1) as nat);
        }
    }
}

/// Trees of the same shape are walked alike.
pub proof fn lemma_same_walk(a: Tree, b: Tree)
    requires
        same_shape(a, b),
        finite(a),
    ensures
        finite(b),
        walk_order(a) == walk_order(b),
{
    let n: u64 = choose|n: u64| #[trigger] visits(a, first_stack(a), n as nat) is Some;
    lemma_visits_same(a, b, first_stack(a), n as nat);
    assert(visits(b, first_stack(b), n as nat) is Some);
    let m: u64 = choose|m: u64| #[trigger] visits(b, first_stack(b), m as nat) is Some;
    if n <= m {
        lemma_visits_more(b, first_stack(b), n as nat, m as nat);
    } else {
        lemma_visits_more(b, first_stack(b), m as nat, n as nat);
    }
}

/// The shape stays when a property is set or a callback is fired.
pub proof fn lemma_shape_kept(t: Tree, m: MutationModel)
    requires
        m is SetProp || m is Invoke,
    ensures
        match crate::ir::step(t, m) {
            Ok(u) => same_shape(t, u),
            Err(_) => true,
        },
{
    match crate::ir::step(t, m) {
        Ok(u) => {
            assert(u.nodes.dom() =~= t.nodes.dom());
        },
        Err(_) => {},
    }
}

/// Having the same shape goes on.
pub proof fn lemma_same_shape_on(a: Tree, b: Tree, c: Tree)
    requires
        same_shape(a, b),
        same_shape(b, c),
    ensures
        same_shape(a, c),
{
    assert forall|id: NodeId| #[trigger] a.nodes.dom().contains(id) implies {
        &&& a.nodes[id].children == c.nodes[id].children
        &&& a.nodes[id].parent == c.nodes[id].parent
        &&& a.nodes[id].kind == c.nodes[id].kind
        &&& a.nodes[id].callbacks == c.nodes[id].callbacks
        &&& a.nodes[id].bindings == c.nodes[id].bindings
    } by {
        assert(b.nodes.dom().contains(id));
    }
}

proof fn lemma_plan_below(g: Page, kids: Seq<NodeId>, i: int, n: nat, acc: Seq<PlanModel>)
    requires
        forall|j: int| 0 <= j < kids.len() ==> !(planned(g, #[trigger] kids[j], false, n) is Deeper),
    ensures
        planned_all(g, kids, i, n, acc) is Some,
    decreases kids.len() - i,
{
    if 0 <= i < kids.len() {
        assert(!(planned(g, kids[i], false, n) is Deeper));
        match planned(g, kids[i], false, n) {
            Planned::Is(p) => {
                lemma_plan_below(g, kids, i + 1, n, acc.push(p));
            },
            _ => {
                lemma_plan_below(g, kids, i + 1, n, acc);
            },
        }
    }
}

proof fn lemma_walk_plans(g: Page, stack: Seq<NodeId>, n: nat, k: int, is_root: bool)
    requires
        visits(g.tree, stack, n) is Some,
        0 <= k < stack.len(),
    ensures
        !(planned(g, stack[k], is_root, n) is Deeper),
    decreases n,
{
    let id = stack.last();
    let rest = stack.drop_last();
    let m = (n - 1) as nat;
    if g.tree.nodes.dom().contains(id) {
        let kids = g.tree.nodes[id].children;
        let next = rest + kids;
        if k < rest.len() {
            assert(next[k] == stack[k]);
            lemma_walk_plans(g, next, m, k, is_root);
            lemma_plan_grows(g, stack[k], is_root, m, n);
        } else {
            assert forall|j: int| 0 <= j < kids.len() implies !(planned(g, #[trigger] kids[j], false, m) is Deeper) by {
                assert(next[rest.len() + j] == kids[j]);
                lemma_walk_plans(g, next, m, rest.len() + j, false);
            }
            lemma_plan_below(g, kids, 0, m, Seq::empty());
        }
    } else if k < rest.len() {
        assert(rest[k] == stack[k]);
        lemma_walk_plans(g, rest, m, k, is_root);
        lemma_plan_grows(g, stack[k], is_root, m, n);
    }
}

/// A document whose walk ends can be planned.
pub proof fn law_finite_can_be_planned(g: Page)
    requires
        finite(g.tree),
    ensures
        plannable(g),
{
    match g.tree.root {
        Some(root) => {
            let n: u64 = choose|n: u64| #[trigger] visits(g.tree, first_stack(g.tree), n as nat) is Some;
            lemma_walk_plans(g, first_stack(g.tree), n as nat, 0, true);
            assert(first_stack(g.tree)[0] == root);
        },
        None => {},
    }
}

proof fn lemma_describe_below(g: Shown, kids: Seq<NodeId>, i: int, n: nat, out: Seq<(u64, A11yModel)>, ids: Seq<u64>)
    requires
        forall|j: int, o: Seq<(u64, A11yModel)>|
            0 <= j < kids.len() ==> !(#[trigger] walked(g, kids[j], n, o) is Deeper),
    ensures
        walked_all(g, kids, i, n, out, ids) is Some,
    decreases kids.len() - i,
{
    if 0 <= i < kids.len() {
        assert(!(walked(g, kids[i], n, out) is Deeper));
        match walked(g, kids[i], n, out) {
            Walk::Out(below) => {
                lemma_describe_below(g, kids, i + 1, n, below, ids.push((kids[i].0 + 1) as u64));
            },
            _ => {
                lemma_describe_below(g, kids, i + 1, n, out, ids);
            },
        }
    }
}

proof fn lemma_walk_describes(g: Shown, stack: Seq<NodeId>, n: nat, k: int, out: Seq<(u64, A11yModel)>)
    requires
        visits(g.tree, stack, n) is Some,
        0 <= k < stack.len(),
    ensures
        !(walked(g, stack[k], n, out) is Deeper),
    decreases n,
{
    let id = stack.last();
    let rest = stack.drop_last();
    let m = (n - 1) as nat;
    if g.tree.nodes.dom().contains(id) {
        let kids = g.tree.nodes[id].children;
        let next = rest + kids;
        if k < rest.len() {
            assert(next[k] == stack[k]);
            lemma_walk_describes(g, next, m, k, out);
            lemma_walk_grows(g, stack[k], m, n, out);
        } else {
            assert forall|j: int, o: Seq<(u64, A11yModel)>| 0 <= j < kids.len() implies !(#[trigger] walked(
                g,
                kids[j],
                m,
                o,
            ) is Deeper) by {
                assert(next[rest.len() + j] == kids[j]);
                lemma_walk_describes(g, next, m, rest.len() + j, o);
            }
            lemma_describe_below(g, kids, 0, m, out, Seq::empty());
        }
    } else if k < rest.len() {
        assert(rest[k] == stack[k]);
        lemma_walk_describes(g, rest, m, k, out);
        lemma_walk_grows(g, stack[k], m, n, out);
    }
}

/// A document whose walk ends has an accessibility tree.
pub proof fn law_finite_can_be_described(g: Shown)
    requires
        finite(g.tree),
    ensures
        walkable(g),
{
    match g.tree.root {
        Some(root) => {
            let n: u64 = choose|n: u64| #[trigger] visits(g.tree, first_stack(g.tree), n as nat) is Some;
            lemma_walk_describes(g, first_stack(g.tree), n as nat, 0, Seq::empty());
            assert(first_stack(g.tree)[0] == root);
        },
        None => {},
    }
}

} // verus!
