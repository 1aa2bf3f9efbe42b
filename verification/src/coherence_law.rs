//! What follows from the links of a document agreeing with each other.
use vstd::prelude::*;

use crate::coherence::{
    above, ancestor, coherent, defect_before, holds, lemma_ancestor_add, lemma_ancestor_defined, on_cycle, IrDefect,
};
use crate::ir::{
    children_back, comes_back, empty_tree, parent_back, step, with_child, with_node, Document, EditModel,
    MutationModel, Tree,
};
use crate::node::{given_parent, has_id, lacking, NodeId, NodeModel};
use crate::undo::replay;
use crate::walk::{ends, finite, first_stack, lemma_ancestor_ends, rooted, visits};

verus! {

/// No node lists a child twice.
pub open spec fn children_distinct(t: Tree) -> bool {
    forall|id: NodeId| #[trigger] t.nodes.dom().contains(id) ==> t.nodes[id].children.no_duplicates()
}

/// The node lies below the root, or is it.
spec fn below_root(t: Tree, x: NodeId) -> bool {
    exists|k: nat| t.root is Some && #[trigger] ancestor(t, x, k) == t.root
}

/// Where a walk stands: what was seen, and what is still to be looked at.
spec fn midway(t: Tree, seen: Set<NodeId>, stack: Seq<NodeId>) -> bool {
    &&& seen.subset_of(t.nodes.dom())
    &&& stack.no_duplicates()
    &&& forall|i: int| 0 <= i < stack.len() ==> !seen.contains(#[trigger] stack[i])
    &&& forall|i: int| 0 <= i < stack.len() ==> t.nodes.dom().contains(#[trigger] stack[i])
    &&& forall|i: int| 0 <= i < stack.len() ==> below_root(t, #[trigger] stack[i])
    &&& forall|i: int| 0 <= i < stack.len() ==> from_seen(t, seen, #[trigger] stack[i])
    &&& forall|x: NodeId| #[trigger] seen.contains(x) ==> from_seen(t, seen, x)
}

/// The node is the root, or a child of one that was seen.
spec fn from_seen(t: Tree, seen: Set<NodeId>, x: NodeId) -> bool {
    ||| t.root == Some(x)
    ||| t.nodes[x].parent is Some && seen.contains(t.nodes[x].parent->0)
}

/// A child of a node that agrees with it is new to a walk that has not seen the node.
proof fn lemma_child_is_new(t: Tree, seen: Set<NodeId>, id: NodeId, c: NodeId)
    requires
        coherent(t),
        t.nodes.dom().contains(id),
        t.nodes[id].children.contains(c),
        !seen.contains(id),
        below_root(t, id),
    ensures
        t.nodes.dom().contains(c),
        t.nodes[c].parent == Some(id),
        below_root(t, c),
        !from_seen(t, seen, c),
        c != id,
{
    assert(!holds(t, IrDefect::ChildMissing { parent: id, child: c }));
    assert(!holds(t, IrDefect::BackrefMismatch { parent: id, child: c }));
    let k = choose|k: nat| t.root is Some && #[trigger] ancestor(t, id, k) == t.root;
    assert(ancestor(t, c, 0) == Some(c));
    assert(ancestor(t, c, 1) == Some(id)) by {
        reveal_with_fuel(ancestor, 2);
    }
    lemma_ancestor_add(t, c, 1, k);
    assert(ancestor(t, c, 1 + k) == t.root);
    if t.root == Some(c) {
        assert(on_cycle(t, c));
        assert(holds(t, IrDefect::Cycle { node: c }));
    }
    if c == id {
        assert(on_cycle(t, c));
        assert(holds(t, IrDefect::Cycle { node: c }));
    }
}

proof fn lemma_midway_on(t: Tree, seen: Set<NodeId>, stack: Seq<NodeId>)
    requires
        coherent(t),
        children_distinct(t),
        midway(t, seen, stack),
        stack.len() > 0,
    ensures
        midway(t, seen.insert(stack.last()), stack.drop_last() + t.nodes[stack.last()].children),
{
    let id = stack.last();
    let rest = stack.drop_last();
    let kids = t.nodes[id].children;
    let now = seen.insert(id);
    let next = rest + kids;
    assert(stack[stack.len() - 1] == id);
    assert forall|i: int| 0 <= i < rest.len() implies #[trigger] rest[i] == stack[i] && rest[i] != id by {}
    assert forall|i: int| 0 <= i < kids.len() implies {
        &&& t.nodes.dom().contains(#[trigger] kids[i])
        &&& t.nodes[kids[i]].parent == Some(id)
        &&& below_root(t, kids[i])
        &&& !from_seen(t, seen, kids[i])
        &&& kids[i] != id
    } by {
        lemma_child_is_new(t, seen, id, kids[i]);
    }
    assert(next.no_duplicates()) by {
        assert forall|i: int, j: int| 0 <= i < next.len() && 0 <= j < next.len() && i != j implies next[i] != next[j] by {
            if i < rest.len() && j < rest.len() {
                assert(next[i] == stack[i] && next[j] == stack[j]);
            } else if i >= rest.len() && j >= rest.len() {
                assert(next[i] == kids[i - rest.len()] && next[j] == kids[j - rest.len()]);
            } else {
                let (a, b) = if i < rest.len() { (i, j) } else { (j, i) };
                assert(next[a] == stack[a]);
                assert(next[b] == kids[b - rest.len()]);
                assert(from_seen(t, seen, stack[a]));
            }
        }
    }
    assert forall|i: int| 0 <= i < next.len() implies {
        &&& !now.contains(#[trigger] next[i])
        &&& t.nodes.dom().contains(next[i])
        &&& below_root(t, next[i])
        &&& from_seen(t, now, next[i])
    } by {
        if i < rest.len() {
            assert(next[i] == stack[i]);
            assert(from_seen(t, seen, stack[i]));
        } else {
            let c = kids[i - rest.len()];
            assert(next[i] == c);
            if seen.contains(c) {
                assert(from_seen(t, seen, c));
            }
        }
    }
    assert forall|x: NodeId| #[trigger] now.contains(x) implies from_seen(t, now, x) by {
        if x != id {
            assert(seen.contains(x));
        }
        assert(from_seen(t, seen, x));
    }
}

/// A walk that stands somewhere ends after looking at what is left.
proof fn lemma_walk_ends(t: Tree, seen: Set<NodeId>, stack: Seq<NodeId>)
    requires
        coherent(t),
        children_distinct(t),
        t.nodes.dom().finite(),
        midway(t, seen, stack),
    ensures
        visits(t, stack, t.nodes.dom().difference(seen).len()) is Some,
    decreases t.nodes.dom().difference(seen).len(),
{
    let left = t.nodes.dom().difference(seen);
    if stack.len() > 0 {
        let id = stack.last();
        assert(stack[stack.len() - 1] == id);
        assert(left.contains(id));
        let now = seen.insert(id);
        assert(t.nodes.dom().difference(now) =~= left.remove(id));
        lemma_midway_on(t, seen, stack);
        lemma_walk_ends(t, now, stack.drop_last() + t.nodes[id].children);
        assert((left.len() - 1) as nat == t.nodes.dom().difference(now).len());
    }
}

/// A chain of more parents than there are nodes meets one of them twice.
proof fn lemma_chain_meets(t: Tree, id: NodeId) -> (r: (nat, nat))
    requires
        t.nodes.dom().finite(),
        ancestor(t, id, t.nodes.dom().len() + 1) is Some,
    ensures
        r.1 >= 1,
        ancestor(t, id, r.0) is Some,
        t.nodes.dom().contains(ancestor(t, id, r.0)->0),
        ancestor(t, ancestor(t, id, r.0)->0, r.1) == ancestor(t, id, r.0),
{
    let k = t.nodes.dom().len() + 1;
    let climb = Seq::new(k, |j: int| ancestor(t, id, j as nat)->0);
    assert forall|j: int| 0 <= j < k implies t.nodes.dom().contains(#[trigger] climb[j]) by {
        lemma_ancestor_defined(t, id, j as nat, k);
    }
    assert(!climb.no_duplicates()) by {
        if climb.no_duplicates() {
            climb.unique_seq_to_set();
            assert forall|x: NodeId| climb.to_set().contains(x) implies t.nodes.dom().contains(x) by {
                let j = choose|j: int| 0 <= j < climb.len() && climb[j] == x;
                assert(t.nodes.dom().contains(climb[j]));
            }
            vstd::set_lib::lemma_len_subset(climb.to_set(), t.nodes.dom());
        }
    }
    let (a, b): (int, int) = choose|a: int, b: int|
        0 <= a < k && 0 <= b < k && a != b && #[trigger] climb[a] == #[trigger] climb[b];
    let (x, y) = if a < b { (a as nat, b as nat) } else { (b as nat, a as nat) };
    lemma_ancestor_defined(t, id, x, k);
    lemma_ancestor_defined(t, id, y, k);
    assert(ancestor(t, id, x)->0 == climb[x as int]);
    assert(ancestor(t, id, y)->0 == climb[y as int]);
    let round = (y - x) as nat;
    lemma_ancestor_add(t, id, x, round);
    assert(x + round == y);
    assert(t.nodes.dom().contains(climb[x as int]));
    (x, round)
}

/// A chain of parents without a cycle ends before it has met more nodes than there are.
proof fn lemma_chain_ends(t: Tree, id: NodeId)
    requires
        coherent(t),
        t.nodes.dom().finite(),
    ensures
        ends(t, id),
{
    let k = t.nodes.dom().len() + 1;
    if ancestor(t, id, k) is Some {
        let (x, round) = lemma_chain_meets(t, id);
        let at = ancestor(t, id, x)->0;
        assert(ancestor(t, at, round) == Some(at));
        assert(on_cycle(t, at));
        assert(holds(t, IrDefect::Cycle { node: at }));
    }
    assert(ancestor(t, id, k) is None);
}

/// A chain that meets a node again goes on as far as one likes.
proof fn lemma_chain_goes_on(t: Tree, id: NodeId, x: nat, round: nat, q: nat) -> (r: nat)
    requires
        round >= 1,
        ancestor(t, id, x) is Some,
        ancestor(t, ancestor(t, id, x)->0, round) == ancestor(t, id, x),
    ensures
        r >= q,
        ancestor(t, id, r) == ancestor(t, id, x),
    decreases q,
{
    if q == 0 {
        x
    } else {
        let r = lemma_chain_goes_on(t, id, x, round, (q - 1) as nat);
        lemma_ancestor_add(t, id, r, round);
        r + round
    }
}

/// `true` exactly when following the parent links from a node comes to an end.
fn climb_ends(doc: &Document, id: NodeId) -> (r: bool)
    ensures
        r == ends(doc@.tree, id),
{
    let ghost t = doc@.tree;
    let limit: usize = doc.len();
    let mut steps: usize = 0;
    let mut cur: NodeId = id;
    loop
        invariant
            t == doc@.tree,
            limit == t.nodes.dom().len(),
            t.nodes.dom().finite(),
            steps <= limit,
            ancestor(t, id, steps as nat) == Some(cur),
        decreases limit - steps,
    {
        let up = match doc.get(cur) {
            Some(node) => node.parent,
            None => None,
        };
        assert(ancestor(t, id, (steps + 1) as nat) == up);
        match up {
            None => {
                return true;
            },
            Some(p) => {
                cur = p;
            },
        }
        if steps >= limit {
            proof {
                if ends(t, id) {
                    let k = choose|k: nat| #[trigger] ancestor(t, id, k) is None;
                    let (x, round) = lemma_chain_meets(t, id);
                    let far = lemma_chain_goes_on(t, id, x, round, k);
                    lemma_ancestor_ends(t, id, k, far);
                }
            }
            return false;
        }
        steps += 1;
    }
}

/// A document whose links agree, and which lists no child twice, is a tree that can be walked:
/// from the root down every walk ends, and from every node up the parents end.
pub proof fn law_coherent_can_be_walked(t: Tree)
    requires
        coherent(t),
        children_distinct(t),
        t.nodes.dom().finite(),
        t.nodes.dom().len() <= u64::MAX,
    ensures
        finite(t),
        rooted(t),
{
    let none = Set::<NodeId>::empty();
    let stack = first_stack(t);
    assert(t.nodes.dom().difference(none) =~= t.nodes.dom());
    match t.root {
        Some(root) => {
            assert(!holds(t, IrDefect::RootMissing { root }));
            assert(ancestor(t, root, 0) == t.root);
            assert(below_root(t, root));
        },
        None => {},
    }
    assert(midway(t, none, stack));
    lemma_walk_ends(t, none, stack);
    let n = t.nodes.dom().len() as u64;
    assert(visits(t, stack, n as nat) is Some);
    assert forall|id: NodeId| #[trigger] t.nodes.dom().contains(id) implies ends(t, id) by {
        lemma_chain_ends(t, id);
    }
}

/// Every parent link of `b` is one of `a`.
pub open spec fn fewer_parents(a: Tree, b: Tree) -> bool {
    forall|c: NodeId| #[trigger]
        b.nodes.dom().contains(c) && b.nodes[c].parent is Some ==> a.nodes.dom().contains(c) && a.nodes[c].parent
            == b.nodes[c].parent
}

/// With fewer parent links a climb goes where it went, as far as it goes.
pub proof fn lemma_fewer_ancestors(a: Tree, b: Tree, n: NodeId, k: nat)
    requires
        fewer_parents(a, b),
        ancestor(b, n, k) is Some,
    ensures
        ancestor(a, n, k) == ancestor(b, n, k),
    decreases k,
{
    if k > 0 {
        lemma_fewer_ancestors(a, b, n, (k - 1) as nat);
    }
}

/// No node is its own ancestor.
pub open spec fn acyclic(t: Tree) -> bool {
    forall|n: NodeId| #[trigger] t.nodes.dom().contains(n) ==> !on_cycle(t, n)
}

/// The root is there, every parent is there, and a node lists exactly those whose parent it is.
pub open spec fn agreeing(t: Tree) -> bool {
    &&& match t.root {
        Some(root) => t.nodes.dom().contains(root),
        None => true,
    }
    &&& forall|p: NodeId, c: NodeId|
        #![trigger t.nodes[p].children.contains(c)]
        t.nodes.dom().contains(p) ==> (t.nodes[p].children.contains(c) <==> t.nodes.dom().contains(c)
            && t.nodes[c].parent == Some(p))
    &&& forall|c: NodeId|
        #![trigger t.nodes[c].parent]
        t.nodes.dom().contains(c) && t.nodes[c].parent is Some ==> t.nodes.dom().contains(t.nodes[c].parent->0)
}

/// The links of a tree agree exactly when children and parents match and no node is its own
/// ancestor.
pub proof fn lemma_coherent_is(t: Tree)
    ensures
        coherent(t) <==> agreeing(t) && acyclic(t),
{
    if coherent(t) {
        match t.root {
            Some(root) => {
                assert(!holds(t, IrDefect::RootMissing { root }));
            },
            None => {},
        }
        assert forall|p: NodeId, c: NodeId|
            #![trigger t.nodes[p].children.contains(c)]
            t.nodes.dom().contains(p) implies (t.nodes[p].children.contains(c) <==> t.nodes.dom().contains(c)
            && t.nodes[c].parent == Some(p)) by {
            assert(!holds(t, IrDefect::ChildMissing { parent: p, child: c }));
            assert(!holds(t, IrDefect::BackrefMismatch { parent: p, child: c }));
        }
        assert forall|c: NodeId|
            #![trigger t.nodes[c].parent]
            t.nodes.dom().contains(c) && t.nodes[c].parent is Some implies t.nodes.dom().contains(
            t.nodes[c].parent->0,
        ) by {
            assert(!holds(t, IrDefect::DanglingParent { node: c, parent: t.nodes[c].parent->0 }));
        }
        assert forall|n: NodeId| #[trigger] t.nodes.dom().contains(n) implies !on_cycle(t, n) by {
            assert(!holds(t, IrDefect::Cycle { node: n }));
        }
    }
    if agreeing(t) && acyclic(t) {
        assert forall|d: IrDefect| !#[trigger] holds(t, d) by {
            match d {
                IrDefect::DanglingParent { node, parent } => {
                    assert(t.nodes[node].parent == t.nodes[node].parent);
                },
                IrDefect::ChildMissing { parent, child } => {
                    assert(t.nodes[parent].children.contains(child) == t.nodes[parent].children.contains(child));
                },
                IrDefect::BackrefMismatch { parent, child } => {
                    assert(t.nodes[parent].children.contains(child) == t.nodes[parent].children.contains(child));
                },
                _ => {},
            }
        }
    }
}

/// Without new parent links there are no new cycles.
proof fn lemma_no_new_cycle(a: Tree, b: Tree)
    requires
        acyclic(a),
        fewer_parents(a, b),
    ensures
        acyclic(b),
{
    assert forall|n: NodeId| #[trigger] b.nodes.dom().contains(n) implies !on_cycle(b, n) by {
        if on_cycle(b, n) {
            let k = choose|k: nat| k >= 1 && #[trigger] ancestor(b, n, k) == Some(n);
            lemma_fewer_ancestors(a, b, n, k);
            assert(ancestor(a, n, k) == Some(n));
            lemma_ancestor_defined(a, n, 0, k);
            assert(on_cycle(a, n));
        }
    }
}

/// The parent links of `b` are those of `a`, with one from `child`, which had none, to `parent`.
spec fn one_parent_more(a: Tree, b: Tree, parent: NodeId, child: NodeId) -> bool {
    &&& b.nodes.dom() == a.nodes.dom()
    &&& a.nodes.dom().contains(child)
    &&& a.nodes[child].parent is None
    &&& b.nodes[child].parent == Some(parent)
    &&& forall|c: NodeId| #[trigger] a.nodes.dom().contains(c) && c != child ==> b.nodes[c].parent == a.nodes[c].parent
}

/// A climb is the same in both until it leaves the child.
proof fn lemma_same_climb(a: Tree, b: Tree, parent: NodeId, child: NodeId, n: NodeId, k: nat)
    requires
        one_parent_more(a, b, parent, child),
        forall|j: nat| j < k ==> #[trigger] ancestor(a, n, j) != Some(child),
    ensures
        ancestor(b, n, k) == ancestor(a, n, k),
    decreases k,
{
    if k > 0 {
        lemma_same_climb(a, b, parent, child, n, (k - 1) as nat);
        assert(ancestor(a, n, (k - 1) as nat) != Some(child));
    }
}

/// Hanging a node without a parent under one that does not lie below it makes no cycle.
proof fn lemma_hung_no_cycle(a: Tree, b: Tree, parent: NodeId, child: NodeId)
    requires
        acyclic(a),
        one_parent_more(a, b, parent, child),
        forall|j: nat| #[trigger] ancestor(a, parent, j) != Some(child),
    ensures
        acyclic(b),
{
    assert forall|n: NodeId| #[trigger] b.nodes.dom().contains(n) implies !on_cycle(b, n) by {
        if on_cycle(b, n) {
            let k = choose|k: nat| k >= 1 && #[trigger] ancestor(b, n, k) == Some(n);
            if forall|j: nat| j < k ==> #[trigger] ancestor(a, n, j) != Some(child) {
                lemma_same_climb(a, b, parent, child, n, k);
                assert(ancestor(a, n, k) == Some(n));
                assert(on_cycle(a, n));
                assert(a.nodes.dom().contains(n));
            } else {
                let j = choose|j: nat| j < k && #[trigger] ancestor(a, n, j) == Some(child);
                assert forall|i: nat| i < j implies #[trigger] ancestor(a, n, i) != Some(child) by {
                    if ancestor(a, n, i) == Some(child) {
                        let up = (j - i) as nat;
                        lemma_ancestor_add(a, n, i, up);
                        assert(i + up == j);
                        assert(ancestor(a, child, up) == Some(child));
                        assert(on_cycle(a, child));
                    }
                }
                lemma_same_climb(a, b, parent, child, n, j);
                assert(ancestor(b, n, j + 1) == Some(parent));
                let rest = (k - j - 1) as nat;
                lemma_ancestor_add(b, n, j + 1, rest);
                assert(j + 1 + rest == k);
                assert(ancestor(b, parent, rest) == Some(n));
                lemma_same_climb(a, b, parent, child, parent, rest);
                assert(ancestor(a, parent, rest) == Some(n));
                lemma_ancestor_add(a, parent, rest, j);
                assert(ancestor(a, parent, rest + j) == Some(child));
            }
        }
    }
}

proof fn lemma_removed_once(s: Seq<NodeId>, at: int, x: NodeId)
    requires
        s.no_duplicates(),
        0 <= at < s.len(),
    ensures
        s.remove(at).no_duplicates(),
        s.remove(at).contains(x) <==> s.contains(x) && x != s[at],
{
    let r = s.remove(at);
    assert forall|i: int, j: int| 0 <= i < r.len() && 0 <= j < r.len() && i != j implies r[i] != r[j] by {
        let p = if i < at { i } else { i + 1 };
        let q = if j < at { j } else { j + 1 };
        assert(r[i] == s[p] && r[j] == s[q]);
    }
    if s.contains(x) && x != s[at] {
        let i = choose|i: int| 0 <= i < s.len() && s[i] == x;
        let p = if i < at { i } else { i - 1 };
        assert(r[p] == x);
    }
    if r.contains(x) {
        let i = choose|i: int| 0 <= i < r.len() && r[i] == x;
        let p = if i < at { i } else { i + 1 };
        assert(s[p] == x);
    }
}

pub proof fn lemma_filtered_out(s: Seq<NodeId>, id: NodeId, x: NodeId)
    ensures
        lacking(s, id).contains(x) <==> s.contains(x) && x != id,
        s.no_duplicates() ==> lacking(s, id).no_duplicates(),
    decreases s.len(),
{
    reveal(Seq::filter);
    if s.len() > 0 {
        let d = s.drop_last();
        lemma_filtered_out(d, id, x);
        lemma_filtered_out(d, id, s.last());
        let f = lacking(d, id);
        assert(d.contains(x) ==> s.contains(x)) by {
            if d.contains(x) {
                let i = choose|i: int| 0 <= i < d.len() && d[i] == x;
                assert(s[i] == x);
            }
        }
        assert(s.contains(x) ==> d.contains(x) || x == s.last()) by {
            if s.contains(x) {
                let i = choose|i: int| 0 <= i < s.len() && s[i] == x;
                if i < d.len() {
                    assert(d[i] == x);
                }
            }
        }
        if s.last() != id {
            let g = f.push(s.last());
            assert(lacking(s, id) == g);
            assert(g.contains(x) <==> f.contains(x) || x == s.last()) by {
                if f.contains(x) {
                    let i = choose|i: int| 0 <= i < f.len() && f[i] == x;
                    assert(g[i] == x);
                }
                assert(g[f.len() as int] == s.last());
            }
            assert(s[s.len() - 1] == s.last());
            if s.no_duplicates() {
                assert(!d.contains(s.last())) by {
                    if d.contains(s.last()) {
                        let i = choose|i: int| 0 <= i < d.len() && d[i] == s.last();
                        assert(s[i] == s[s.len() - 1]);
                    }
                }
                assert(d.no_duplicates());
                assert(!f.contains(s.last()));
                assert forall|i: int, j: int| 0 <= i < g.len() && 0 <= j < g.len() && i != j implies g[i] != g[j] by {
                    if i < f.len() && j < f.len() {
                        assert(g[i] == f[i] && g[j] == f[j]);
                    } else if i < f.len() {
                        assert(f.contains(f[i]));
                    } else {
                        assert(f.contains(f[j]));
                    }
                }
            }
        } else {
            assert(lacking(s, id) == f);
            if s.no_duplicates() {
                assert(d.no_duplicates());
            }
        }
    }
}

proof fn lemma_with_child(s: Seq<NodeId>, c: NodeId, x: NodeId)
    ensures
        with_child(s, c).contains(x) <==> s.contains(x) || x == c,
        s.no_duplicates() ==> with_child(s, c).no_duplicates(),
{
    let r = with_child(s, c);
    if s.contains(x) {
        let i = choose|i: int| 0 <= i < s.len() && s[i] == x;
        assert(r[i] == x);
    }
    if !s.contains(c) {
        assert(r[s.len() as int] == c);
    }
}

/// A tree with another child under a node, as its lists show it.
proof fn lemma_hung_keeps(t: Tree, parent: NodeId, child: NodeId)
    requires
        agreeing(t),
        acyclic(t),
        children_distinct(t),
        t.nodes.dom().contains(parent),
        t.nodes.dom().contains(child),
        !above(t, child, parent),
    ensures
        agreeing(crate::ir::hung(t, parent, child)),
        acyclic(crate::ir::hung(t, parent, child)),
        children_distinct(crate::ir::hung(t, parent, child)),
{
    let b = crate::ir::hung(t, parent, child);
    assert(ancestor(t, parent, 0) == Some(parent));
    assert(b.nodes.dom() =~= t.nodes.dom());
    let was = t.nodes[child].parent;
    assert forall|x: NodeId| #[trigger] t.nodes.dom().contains(x) implies b.nodes[x].parent == (if x == child {
        Some(parent)
    } else {
        t.nodes[x].parent
    }) && b.nodes[x].children == (if x == parent {
        with_child(t.nodes[x].children, child)
    } else if was == Some(x) {
        lacking(t.nodes[x].children, child)
    } else {
        t.nodes[x].children
    }) by {}
    assert forall|p: NodeId, c: NodeId|
        #![trigger b.nodes[p].children.contains(c)]
        b.nodes.dom().contains(p) implies (b.nodes[p].children.contains(c) <==> b.nodes.dom().contains(c)
        && b.nodes[c].parent == Some(p)) by {
        assert(t.nodes[p].children.contains(c) <==> t.nodes.dom().contains(c) && t.nodes[c].parent == Some(p));
        assert(t.nodes.dom().contains(c) ==> b.nodes[c].parent == (if c == child {
            Some(parent)
        } else {
            t.nodes[c].parent
        }));
        lemma_with_child(t.nodes[p].children, child, c);
        lemma_filtered_out(t.nodes[p].children, child, c);
    }
    assert forall|c: NodeId|
        #![trigger b.nodes[c].parent]
        b.nodes.dom().contains(c) && b.nodes[c].parent is Some implies b.nodes.dom().contains(b.nodes[c].parent->0) by {
        assert(t.nodes[c].parent == t.nodes[c].parent);
    }
    assert forall|x: NodeId| #[trigger] b.nodes.dom().contains(x) implies b.nodes[x].children.no_duplicates() by {
        assert(t.nodes[x].children.no_duplicates());
        lemma_with_child(t.nodes[x].children, child, x);
        lemma_filtered_out(t.nodes[x].children, child, x);
    }
    let a = Tree { nodes: given_parent(t.nodes, set![child], None), root: t.root };
    assert(fewer_parents(t, a));
    lemma_no_new_cycle(t, a);
    assert forall|j: nat| #[trigger] ancestor(a, parent, j) != Some(child) by {
        if ancestor(a, parent, j) == Some(child) {
            lemma_fewer_ancestors(t, a, parent, j);
        }
    }
    assert(a.nodes.dom() =~= b.nodes.dom());
    lemma_hung_no_cycle(a, b, parent, child);
}

proof fn lemma_dropped_keeps(t: Tree, id: NodeId)
    requires
        agreeing(t),
        acyclic(t),
        children_distinct(t),
        t.nodes.dom().contains(id),
    ensures
        agreeing(crate::ir::without_node(t, id)),
        acyclic(crate::ir::without_node(t, id)),
        children_distinct(crate::ir::without_node(t, id)),
{
    let b = crate::ir::without_node(t, id);
    assert(b.nodes.dom() =~= t.nodes.dom().remove(id));
    let was = t.nodes[id].parent;
    assert forall|x: NodeId| #[trigger] b.nodes.dom().contains(x) implies b.nodes[x].parent == (if t.nodes[x].parent
        == Some(id) {
        None
    } else {
        t.nodes[x].parent
    }) && b.nodes[x].children == (if was == Some(x) {
        lacking(t.nodes[x].children, id)
    } else {
        t.nodes[x].children
    }) by {}
    assert forall|p: NodeId, c: NodeId|
        #![trigger b.nodes[p].children.contains(c)]
        b.nodes.dom().contains(p) implies (b.nodes[p].children.contains(c) <==> b.nodes.dom().contains(c)
        && b.nodes[c].parent == Some(p)) by {
        assert(t.nodes[p].children.contains(c) <==> t.nodes.dom().contains(c) && t.nodes[c].parent == Some(p));
        assert(t.nodes[p].children.contains(id) <==> was == Some(p));
        lemma_filtered_out(t.nodes[p].children, id, c);
        if b.nodes.dom().contains(c) {
            assert(b.nodes[c].parent == (if t.nodes[c].parent == Some(id) {
                None
            } else {
                t.nodes[c].parent
            }));
        }
    }
    assert forall|c: NodeId|
        #![trigger b.nodes[c].parent]
        b.nodes.dom().contains(c) && b.nodes[c].parent is Some implies b.nodes.dom().contains(b.nodes[c].parent->0) by {
        assert(t.nodes[c].parent == t.nodes[c].parent);
        assert(b.nodes.dom().contains(c));
    }
    assert forall|x: NodeId| #[trigger] b.nodes.dom().contains(x) implies b.nodes[x].children.no_duplicates() by {
        assert(t.nodes.dom().contains(x));
        lemma_filtered_out(t.nodes[x].children, id, x);
    }
    assert(fewer_parents(t, b));
    lemma_no_new_cycle(t, b);
}

/// The children that come back: some of those that were listed, each of which can, and each once.
pub proof fn lemma_children_back(t: Tree, id: NodeId, parent: Option<NodeId>, cs: Seq<NodeId>, x: NodeId)
    ensures
        children_back(t, id, parent, cs).no_duplicates(),
        children_back(t, id, parent, cs).contains(x) <==> cs.contains(x) && comes_back(t, id, parent, x),
    decreases cs.len(),
{
    if cs.len() > 0 {
        let d = cs.drop_last();
        lemma_children_back(t, id, parent, d, x);
        lemma_with_child(children_back(t, id, parent, d), cs.last(), x);
        assert(cs =~= d.push(cs.last()));
        if d.contains(x) {
            let i = choose|i: int| 0 <= i < d.len() && d[i] == x;
            assert(cs[i] == x);
        }
        if cs.contains(x) {
            let i = choose|i: int| 0 <= i < cs.len() && cs[i] == x;
            if i < d.len() {
                assert(d[i] == x);
            }
        }
        assert(cs[cs.len() - 1] == cs.last());
    }
}

/// A tree in which some nodes without a parent hang under one without a parent has no cycle.
proof fn lemma_gathered(a: Tree, id: NodeId, kids: Seq<NodeId>)
    requires
        acyclic(a),
        a.nodes.dom().contains(id),
        a.nodes[id].parent is None,
        kids.no_duplicates(),
        !kids.contains(id),
        forall|k: NodeId| #[trigger] kids.contains(k) ==> a.nodes.dom().contains(k) && a.nodes[k].parent is None,
    ensures
        acyclic(Tree { nodes: given_parent(a.nodes, kids.to_set(), Some(id)), root: a.root }),
    decreases kids.len(),
{
    let b = Tree { nodes: given_parent(a.nodes, kids.to_set(), Some(id)), root: a.root };
    if kids.len() == 0 {
        assert(fewer_parents(a, b));
        lemma_no_new_cycle(a, b);
    } else {
        let rest = kids.drop_last();
        let k = kids.last();
        assert(kids[kids.len() - 1] == k);
        assert forall|x: NodeId| #[trigger] rest.contains(x) implies kids.contains(x) by {
            let i = choose|i: int| 0 <= i < rest.len() && rest[i] == x;
            assert(kids[i] == x);
        }
        assert(!rest.contains(k)) by {
            if rest.contains(k) {
                let i = choose|i: int| 0 <= i < rest.len() && rest[i] == k;
                assert(kids[i] == kids[kids.len() - 1]);
            }
        }
        lemma_gathered(a, id, rest);
        let m = Tree { nodes: given_parent(a.nodes, rest.to_set(), Some(id)), root: a.root };
        assert(m.nodes.dom() =~= b.nodes.dom());
        assert forall|x: NodeId| kids.to_set().contains(x) <==> rest.to_set().contains(x) || x == k by {
            if kids.contains(x) && x != k {
                let i = choose|i: int| 0 <= i < kids.len() && kids[i] == x;
                assert(rest[i] == x);
            }
        }
        assert forall|j: nat| #[trigger] ancestor(m, id, j) != Some(k) by {
            if j >= 1 {
                assert(ancestor(m, id, 0) == Some(id));
                assert(ancestor(m, id, 1) is None) by {
                    reveal_with_fuel(ancestor, 2);
                }
                if ancestor(m, id, j) is Some {
                    lemma_ancestor_defined(m, id, 1, j);
                }
            }
        }
        assert(kids.contains(k));
        assert forall|c: NodeId| #[trigger] m.nodes.dom().contains(c) && c != k implies b.nodes[c].parent
            == m.nodes[c].parent by {
            assert(kids.to_set().contains(c) <==> rest.to_set().contains(c));
        }
        assert(!rest.to_set().contains(k));
        assert(kids.to_set().contains(k));
        lemma_hung_no_cycle(m, b, id, k);
    }
}

/// A climb that has not met `id` goes where it went before nodes were gathered under it.
proof fn lemma_climb_outside(t: Tree, a: Tree, id: NodeId, p: NodeId, j: nat)
    requires
        forall|x: NodeId| #[trigger]
            a.nodes.dom().contains(x) && x != id ==> t.nodes.dom().contains(x) && (a.nodes[x].parent == Some(id)
                || a.nodes[x].parent == t.nodes[x].parent),
        ancestor(a, p, j) is Some,
        forall|i: nat| i <= j ==> #[trigger] ancestor(a, p, i) != Some(id),
    ensures
        ancestor(t, p, j) == ancestor(a, p, j),
    decreases j,
{
    if j > 0 {
        let c = ancestor(a, p, (j - 1) as nat);
        lemma_climb_outside(t, a, id, p, (j - 1) as nat);
        assert(c != Some(id));
        assert(ancestor(a, p, j) != Some(id));
    }
}

#[verifier::rlimit(30)]
proof fn lemma_back_keeps(t: Tree, id: NodeId, node: NodeModel, was_root: bool)
    requires
        agreeing(t),
        acyclic(t),
        children_distinct(t),
        !t.nodes.dom().contains(id),
    ensures
        agreeing(crate::ir::with_back(t, id, node, was_root)),
        acyclic(crate::ir::with_back(t, id, node, was_root)),
        children_distinct(crate::ir::with_back(t, id, node, was_root)),
{
    let b = crate::ir::with_back(t, id, node, was_root);
    let parent = parent_back(t, node);
    let kids = children_back(t, id, parent, node.children);
    assert(b.nodes.dom() =~= t.nodes.dom().insert(id));
    assert forall|x: NodeId| #[trigger] kids.contains(x) implies t.nodes.dom().contains(x) && t.nodes[x].parent is None
        && comes_back(t, id, parent, x) by {
        lemma_children_back(t, id, parent, node.children, x);
        assert(t.nodes[x].parent == t.nodes[x].parent);
    }
    lemma_children_back(t, id, parent, node.children, id);
    assert(!kids.contains(id));
    assert forall|x: NodeId| #[trigger] t.nodes.dom().contains(x) implies !t.nodes[x].children.contains(id) && x != id
        && t.nodes[x].parent != Some(id) by {
        assert(t.nodes[x].children.contains(id) ==> t.nodes.dom().contains(id));
        assert(t.nodes[x].parent == t.nodes[x].parent);
    }
    assert forall|x: NodeId| #[trigger] t.nodes.dom().contains(x) implies b.nodes[x].parent == (if kids.contains(x) {
        Some(id)
    } else {
        t.nodes[x].parent
    }) && b.nodes[x].children == (if parent == Some(x) {
        with_child(t.nodes[x].children, id)
    } else {
        t.nodes[x].children
    }) by {}
    assert(b.nodes[id].parent == parent);
    assert(b.nodes[id].children == kids);
    assert forall|p: NodeId, c: NodeId|
        #![trigger b.nodes[p].children.contains(c)]
        b.nodes.dom().contains(p) implies (b.nodes[p].children.contains(c) <==> b.nodes.dom().contains(c)
        && b.nodes[c].parent == Some(p)) by {
        if p == id {
            assert(kids.contains(c) ==> t.nodes.dom().contains(c));
            assert(t.nodes.dom().contains(c) ==> t.nodes[c].parent != Some(id));
        } else {
            assert(t.nodes.dom().contains(p));
            assert(t.nodes[p].children.contains(c) <==> t.nodes.dom().contains(c) && t.nodes[c].parent == Some(p));
            lemma_with_child(t.nodes[p].children, id, c);
            if t.nodes.dom().contains(c) {
                assert(kids.contains(c) ==> t.nodes[c].parent is None);
            }
        }
    }
    assert forall|c: NodeId|
        #![trigger b.nodes[c].parent]
        b.nodes.dom().contains(c) && b.nodes[c].parent is Some implies b.nodes.dom().contains(b.nodes[c].parent->0) by {
        if c != id {
            assert(t.nodes.dom().contains(c));
            assert(t.nodes[c].parent == t.nodes[c].parent);
        }
    }
    assert forall|x: NodeId| #[trigger] b.nodes.dom().contains(x) implies b.nodes[x].children.no_duplicates() by {
        if x != id {
            assert(t.nodes.dom().contains(x));
            lemma_with_child(t.nodes[x].children, id, x);
        }
    }
    let a = with_node(t, id, NodeModel { parent: None, ..node });
    assert(fewer_parents(t, a));
    lemma_no_new_cycle(t, a);
    lemma_gathered(a, id, kids);
    let m = Tree { nodes: given_parent(a.nodes, kids.to_set(), Some(id)), root: a.root };
    assert(m.nodes.dom() =~= b.nodes.dom());
    match parent {
        None => {
            assert(fewer_parents(m, b));
            lemma_no_new_cycle(m, b);
        },
        Some(p) => {
            assert forall|j: nat| #[trigger] ancestor(m, p, j) != Some(id) by {
                if ancestor(m, p, j) == Some(id) {
                    let k = lemma_first_meeting(m, p, id, j);
                    assert(ancestor(m, p, 0) == Some(p));
                    assert(k >= 1);
                    let i = (k - 1) as nat;
                    lemma_ancestor_defined(m, p, i, k);
                    let c = ancestor(m, p, i)->0;
                    assert(m.nodes[c].parent == Some(id));
                    assert(kids.contains(c));
                    lemma_climb_outside(t, m, id, p, i);
                    assert(above(t, c, p));
                }
            }
            lemma_hung_no_cycle(m, b, p, id);
        },
    }
}

/// The first step of a climb at which it meets a node.
proof fn lemma_first_meeting(t: Tree, n: NodeId, x: NodeId, k: nat) -> (r: nat)
    requires
        ancestor(t, n, k) == Some(x),
    ensures
        r <= k,
        ancestor(t, n, r) == Some(x),
        forall|j: nat| j < r ==> #[trigger] ancestor(t, n, j) != Some(x),
    decreases k,
{
    if exists|j: nat| j < k && #[trigger] ancestor(t, n, j) == Some(x) {
        let j = choose|j: nat| j < k && #[trigger] ancestor(t, n, j) == Some(x);
        lemma_first_meeting(t, n, x, j)
    } else {
        k
    }
}

proof fn lemma_detached_keeps(t: Tree, parent: NodeId, child: NodeId)
    requires
        agreeing(t),
        acyclic(t),
        children_distinct(t),
        step(t, MutationModel::RemoveChild { parent, child }) is Ok,
    ensures
        agreeing(step(t, MutationModel::RemoveChild { parent, child })->Ok_0),
        acyclic(step(t, MutationModel::RemoveChild { parent, child })->Ok_0),
        children_distinct(step(t, MutationModel::RemoveChild { parent, child })->Ok_0),
{
    let b = step(t, MutationModel::RemoveChild { parent, child })->Ok_0;
    let old_kids = t.nodes[parent].children;
    let at = old_kids.index_of_first(child)->0;
    old_kids.index_of_first_ensures(child);
    assert(t.nodes[parent].children.contains(child));
    assert(b.nodes.dom() =~= t.nodes.dom());
    assert forall|x: NodeId| #[trigger] t.nodes.dom().contains(x) implies b.nodes[x].children == (if x == parent {
        old_kids.remove(at)
    } else {
        t.nodes[x].children
    }) && b.nodes[x].parent == (if x == child {
        None
    } else {
        t.nodes[x].parent
    }) by {}
    assert forall|p: NodeId, c: NodeId|
        #![trigger b.nodes[p].children.contains(c)]
        b.nodes.dom().contains(p) implies (b.nodes[p].children.contains(c) <==> b.nodes.dom().contains(c)
        && b.nodes[c].parent == Some(p)) by {
        assert(t.nodes[p].children.contains(c) <==> t.nodes.dom().contains(c) && t.nodes[c].parent == Some(p));
        if p == parent {
            lemma_removed_once(old_kids, at, c);
        }
        assert(t.nodes.dom().contains(c) ==> b.nodes[c].parent == (if c == child {
            None
        } else {
            t.nodes[c].parent
        }));
    }
    assert forall|c: NodeId|
        #![trigger b.nodes[c].parent]
        b.nodes.dom().contains(c) && b.nodes[c].parent is Some implies b.nodes.dom().contains(b.nodes[c].parent->0) by {
        assert(t.nodes.dom().contains(c));
        assert(t.nodes[c].parent == t.nodes[c].parent);
    }
    assert forall|x: NodeId| #[trigger] b.nodes.dom().contains(x) implies b.nodes[x].children.no_duplicates() by {
        assert(t.nodes.dom().contains(x));
        lemma_removed_once(old_kids, at, x);
    }
    assert(fewer_parents(t, b));
    lemma_no_new_cycle(t, b);
}

/// The rest of the edits change no link, or add a node without any.
proof fn lemma_still_keeps(t: Tree, m: MutationModel)
    requires
        agreeing(t),
        acyclic(t),
        children_distinct(t),
        step(t, m) is Ok,
        !(m is AppendChild || m is RemoveChild || m is RemoveNode || m is Reconstruct),
    ensures
        agreeing(step(t, m)->Ok_0),
        acyclic(step(t, m)->Ok_0),
        children_distinct(step(t, m)->Ok_0),
{
    let b = step(t, m)->Ok_0;
    assert forall|x: NodeId| #[trigger] b.nodes.dom().contains(x) implies (if t.nodes.dom().contains(x) {
        b.nodes[x].children == t.nodes[x].children && b.nodes[x].parent == t.nodes[x].parent
    } else {
        b.nodes[x].children == Seq::<NodeId>::empty() && b.nodes[x].parent is None
    }) by {}
    assert(forall|x: NodeId| #[trigger] t.nodes.dom().contains(x) ==> b.nodes.dom().contains(x));
    assert forall|p: NodeId, c: NodeId|
        #![trigger b.nodes[p].children.contains(c)]
        b.nodes.dom().contains(p) implies (b.nodes[p].children.contains(c) <==> b.nodes.dom().contains(c)
        && b.nodes[c].parent == Some(p)) by {
        assert(t.nodes.dom().contains(p) ==> (t.nodes[p].children.contains(c) <==> t.nodes.dom().contains(c)
            && t.nodes[c].parent == Some(p)));
        if t.nodes.dom().contains(c) {
            assert(t.nodes[c].parent is Some ==> t.nodes.dom().contains(t.nodes[c].parent->0));
            assert(b.nodes.dom().contains(c));
        }
    }
    assert forall|c: NodeId|
        #![trigger b.nodes[c].parent]
        b.nodes.dom().contains(c) && b.nodes[c].parent is Some implies b.nodes.dom().contains(b.nodes[c].parent->0) by {
        if t.nodes.dom().contains(c) {
            assert(t.nodes[c].parent == t.nodes[c].parent);
        }
    }
    assert forall|x: NodeId| #[trigger] b.nodes.dom().contains(x) implies b.nodes[x].children.no_duplicates() by {
        if t.nodes.dom().contains(x) {
            assert(t.nodes[x].children.no_duplicates());
        }
    }
    assert(fewer_parents(t, b));
    lemma_no_new_cycle(t, b);
}

/// Every accepted edit keeps the links of a document agreeing, and no child is listed twice: no
/// edit makes a tree that [`Document::verify`] finds fault with out of one that it does not.
pub proof fn law_edits_keep_links(t: Tree, m: MutationModel)
    requires
        coherent(t),
        children_distinct(t),
        step(t, m) is Ok,
    ensures
        coherent(step(t, m)->Ok_0),
        children_distinct(step(t, m)->Ok_0),
{
    lemma_coherent_is(t);
    lemma_coherent_is(step(t, m)->Ok_0);
    match m {
        MutationModel::AppendChild { parent, child } => {
            lemma_hung_keeps(t, parent, child);
        },
        MutationModel::RemoveChild { parent, child } => {
            lemma_detached_keeps(t, parent, child);
        },
        MutationModel::RemoveNode { id } => {
            lemma_dropped_keeps(t, id);
        },
        MutationModel::Reconstruct { id, node, was_root } => {
            lemma_back_keeps(t, id, node, was_root);
        },
        _ => {
            lemma_still_keeps(t, m);
        },
    }
}

proof fn lemma_all_come_back(t: Tree, id: NodeId, parent: Option<NodeId>, cs: Seq<NodeId>)
    requires
        cs.no_duplicates(),
        forall|i: int| 0 <= i < cs.len() ==> comes_back(t, id, parent, #[trigger] cs[i]),
    ensures
        children_back(t, id, parent, cs) == cs,
    decreases cs.len(),
{
    if cs.len() > 0 {
        let d = cs.drop_last();
        assert forall|i: int| 0 <= i < d.len() implies comes_back(t, id, parent, #[trigger] d[i]) by {
            assert(d[i] == cs[i]);
        }
        lemma_all_come_back(t, id, parent, d);
        assert(!d.contains(cs.last())) by {
            if d.contains(cs.last()) {
                let i = choose|i: int| 0 <= i < d.len() && d[i] == cs.last();
                assert(cs[i] == cs[cs.len() - 1]);
            }
        }
        assert(comes_back(t, id, parent, cs[cs.len() - 1]));
        assert(d.push(cs.last()) =~= cs);
    } else {
        assert(children_back(t, id, parent, cs) =~= cs);
    }
}

/// A node that was removed gets its parent and all its children back.
pub proof fn lemma_removed_comes_back(t: Tree, id: NodeId)
    requires
        agreeing(t),
        acyclic(t),
        children_distinct(t),
        t.nodes.dom().contains(id),
    ensures
        ({
            let u = crate::ir::without_node(t, id);
            &&& parent_back(u, t.nodes[id]) == t.nodes[id].parent
            &&& children_back(u, id, t.nodes[id].parent, t.nodes[id].children) == t.nodes[id].children
        }),
{
    let u = crate::ir::without_node(t, id);
    let n = t.nodes[id];
    assert(u.nodes.dom() =~= t.nodes.dom().remove(id));
    if n.parent == Some(id) {
        assert(ancestor(t, id, 1) == Some(id)) by {
            reveal_with_fuel(ancestor, 2);
        }
        assert(on_cycle(t, id));
    }
    match n.parent {
        Some(p) => {
            assert(t.nodes[id].parent == Some(p));
        },
        None => {},
    }
    assert forall|i: int| 0 <= i < n.children.len() implies comes_back(u, id, n.parent, #[trigger] n.children[i]) by {
        let c = n.children[i];
        assert(t.nodes[id].children.contains(c));
        assert(t.nodes[c].parent == Some(id));
        if c == id {
            assert(ancestor(t, id, 1) == Some(id)) by {
                reveal_with_fuel(ancestor, 2);
            }
            assert(on_cycle(t, id));
        }
        match n.parent {
            Some(p) => {
                if above(u, c, p) {
                    let k = choose|k: nat| #[trigger] ancestor(u, p, k) == Some(c);
                    assert(fewer_parents(t, u));
                    lemma_fewer_ancestors(t, u, p, k);
                    lemma_ancestor_add(t, p, k, 2);
                    assert(ancestor(t, c, 2) == Some(p)) by {
                        reveal_with_fuel(ancestor, 3);
                    }
                    assert(ancestor(t, p, k + 2) == Some(p));
                    assert(on_cycle(t, p));
                }
            },
            None => {},
        }
    }
    lemma_all_come_back(u, id, n.parent, n.children);
}

/// What a log builds up from nothing has links that agree, whatever the edits were.
pub proof fn law_logs_build_coherent_trees(log: Seq<EditModel>)
    ensures
        replay(log) matches Some(t) ==> coherent(t) && children_distinct(t),
    decreases log.len(),
{
    if log.len() == 0 {
        let t = empty_tree();
        assert forall|d: IrDefect| !#[trigger] holds(t, d) by {}
    } else {
        law_logs_build_coherent_trees(log.drop_last());
        match replay(log.drop_last()) {
            Some(t) => {
                if step(t, log.last().mutation) is Ok {
                    law_edits_keep_links(t, log.last().mutation);
                }
            },
            None => {},
        }
    }
}

fn distinct(v: &Vec<NodeId>) -> (r: bool)
    ensures
        r == v@.no_duplicates(),
{
    let mut rest: Vec<NodeId> = Vec::new();
    let mut i: usize = 0;
    while i < v.len()
        invariant
            i <= v@.len(),
            rest@ == v@.take(i as int),
            rest@.no_duplicates(),
        decreases v.len() - i,
    {
        if has_id(&rest, v[i]) {
            proof {
                let j = choose|j: int| 0 <= j < rest@.len() && rest@[j] == v@[i as int];
                assert(v@[j] == v@[i as int]);
            }
            return false;
        }
        rest.push(v[i]);
        assert(rest@ =~= v@.take(i + 1));
        i += 1;
    }
    assert(v@.take(i as int) =~= v@);
    true
}

/// `true` exactly when the links of the document agree and no node lists a child twice. A live
/// interface can begin around such a document.
pub fn can_be_walked(doc: &Document) -> (r: bool)
    ensures
        r == (coherent(doc@.tree) && children_distinct(doc@.tree)),
        r ==> finite(doc@.tree) && rooted(doc@.tree),
{
    let ghost t = doc@.tree;
    if doc.verify().is_err() {
        return false;
    }
    let ids = doc.ids();
    let _count: usize = doc.len();
    let mut i: usize = 0;
    while i < ids.len()
        invariant
            t == doc@.tree,
            i <= ids@.len(),
            ids@.to_set() == t.nodes.dom(),
            forall|k: int| 0 <= k < i ==> t.nodes[#[trigger] ids@[k]].children.no_duplicates(),
        decreases ids.len() - i,
    {
        assert(ids@.to_set().contains(ids@[i as int]));
        match doc.get(ids[i]) {
            Some(node) => {
                if !distinct(&node.children) {
                    assert(t.nodes.dom().contains(ids@[i as int]));
                    return false;
                }
            },
            None => {},
        }
        i += 1;
    }
    proof {
        assert forall|id: NodeId| #[trigger] t.nodes.dom().contains(id) implies t.nodes[id].children.no_duplicates() by {
            assert(ids@.to_set().contains(id));
            let k = choose|k: int| 0 <= k < ids@.len() && ids@[k] == id;
            assert(t.nodes[ids@[k]].children.no_duplicates());
        }
        law_coherent_can_be_walked(t);
    }
    true
}

/// `true` exactly when a walk of the document takes at most `steps` steps and following the parent
/// links from each of its nodes comes to an end. A live interface can begin around such a document,
/// whether its links agree or not.
pub fn walks_within(doc: &Document, steps: u64) -> (r: bool)
    ensures
        r == (visits(doc@.tree, first_stack(doc@.tree), steps as nat) is Some && rooted(doc@.tree)),
        r ==> finite(doc@.tree) && rooted(doc@.tree),
{
    let ghost t = doc@.tree;
    let mut left: u64 = steps;
    let mut stack: Vec<NodeId> = Vec::new();
    match doc.root() {
        Some(root) => {
            stack.push(root);
        },
        None => {},
    }
    assert(stack@ =~= first_stack(t));
    while stack.len() > 0
        invariant
            t == doc@.tree,
            left <= steps,
            (visits(t, first_stack(t), steps as nat) is Some) == (visits(t, stack@, left as nat) is Some),
        decreases left,
    {
        if left == 0 {
            return false;
        }
        let ghost was = stack@;
        let id = match stack.pop() {
            Some(id) => id,
            None => {
                return false;
            },
        };
        assert(stack@ =~= was.drop_last());
        match doc.get(id) {
            Some(node) => {
                let ghost base = stack@;
                let mut i: usize = 0;
                assert(base =~= base + node.children@.take(0));
                while i < node.children.len()
                    invariant
                        i <= node.children@.len(),
                        stack@ == base + node.children@.take(i as int),
                    decreases node.children.len() - i,
                {
                    stack.push(node.children[i]);
                    i += 1;
                    assert(stack@ =~= base + node.children@.take(i as int));
                }
                assert(node.children@.take(i as int) =~= node.children@);
            },
            None => {},
        }
        left = left - 1;
    }
    assert(visits(t, first_stack(t), steps as nat) is Some);
    let ids = doc.ids();
    let mut k: usize = 0;
    while k < ids.len()
        invariant
            t == doc@.tree,
            k <= ids@.len(),
            ids@.to_set() == t.nodes.dom(),
            forall|j: int| 0 <= j < k ==> ends(t, #[trigger] ids@[j]),
        decreases ids.len() - k,
    {
        assert(ids@.to_set().contains(ids@[k as int]));
        if !climb_ends(doc, ids[k]) {
            assert(t.nodes.dom().contains(ids@[k as int]));
            return false;
        }
        k += 1;
    }
    proof {
        assert forall|id: NodeId| #[trigger] t.nodes.dom().contains(id) implies ends(t, id) by {
            assert(ids@.to_set().contains(id));
            let j = choose|j: int| 0 <= j < ids@.len() && ids@[j] == id;
            assert(ends(t, ids@[j]));
        }
    }
    true
}

/// Both ends of every link between two nodes agree: a node is among the children of its parent, and
/// the parent of its children, and all of them are there.
pub open spec fn linked_both_ways(t: Tree) -> bool {
    &&& forall|x: NodeId| #[trigger]
        t.nodes.dom().contains(x) ==> (t.nodes[x].parent matches Some(p) ==> t.nodes.dom().contains(p)
            && t.nodes[p].children.contains(x))
    &&& forall|p: NodeId, x: NodeId| #[trigger]
        t.nodes.dom().contains(p) && #[trigger] t.nodes[p].children.contains(x) ==> t.nodes.dom().contains(x)
            && t.nodes[x].parent == Some(p)
}

/// The links of a document agree exactly where its root is there, every link is there from both ends
/// and nobody stands above itself.
pub proof fn law_coherence_is_agreement(t: Tree)
    ensures
        coherent(t) <==> {
            &&& t.root matches Some(r) ==> t.nodes.dom().contains(r)
            &&& linked_both_ways(t)
            &&& forall|x: NodeId, k: nat| #[trigger]
                ancestor(t, x, k) == Some(x) && t.nodes.dom().contains(x) ==> k == 0
        },
{
    let cycles = forall|x: NodeId, k: nat| #[trigger]
        ancestor(t, x, k) == Some(x) && t.nodes.dom().contains(x) ==> k == 0;
    if coherent(t) {
        if let Some(r) = t.root {
            assert(!holds(t, IrDefect::RootMissing { root: r }));
        }
        assert forall|x: NodeId| #[trigger] t.nodes.dom().contains(x) implies (t.nodes[x].parent matches Some(p)
            ==> t.nodes.dom().contains(p) && t.nodes[p].children.contains(x)) by {
            if let Some(p) = t.nodes[x].parent {
                assert(!holds(t, IrDefect::DanglingParent { node: x, parent: p }));
                assert(!holds(t, IrDefect::BackrefMismatch { parent: p, child: x }));
            }
        }
        assert forall|p: NodeId, x: NodeId| #[trigger]
            t.nodes.dom().contains(p) && #[trigger] t.nodes[p].children.contains(x) implies t.nodes.dom().contains(x)
            && t.nodes[x].parent == Some(p) by {
            assert(!holds(t, IrDefect::ChildMissing { parent: p, child: x }));
            assert(!holds(t, IrDefect::BackrefMismatch { parent: p, child: x }));
        }
        assert forall|x: NodeId, k: nat| #[trigger]
            ancestor(t, x, k) == Some(x) && t.nodes.dom().contains(x) implies k == 0 by {
            assert(!holds(t, IrDefect::Cycle { node: x }));
            if k >= 1 {
                assert(on_cycle(t, x));
            }
        }
    }
    if (t.root matches Some(r) ==> t.nodes.dom().contains(r)) && linked_both_ways(t) && cycles {
        assert forall|d: IrDefect| !#[trigger] holds(t, d) by {
            if holds(t, d) {
                match d {
                    IrDefect::Cycle { node } => {
                        let k = choose|k: nat| k >= 1 && #[trigger] ancestor(t, node, k) == Some(node);
                        assert(k == 0);
                    },
                    _ => {},
                }
            }
        }
    }
}

/// A report names its defects by sort, and those of one sort by their nodes: of two different ones
/// exactly one stands before the other.
pub proof fn law_report_is_in_one_order(a: IrDefect, b: IrDefect, c: IrDefect)
    ensures
        !defect_before(a, a),
        a != b ==> defect_before(a, b) != defect_before(b, a),
        defect_before(a, b) && defect_before(b, c) ==> defect_before(a, c),
        a is DanglingParent && !(b is DanglingParent) ==> defect_before(a, b),
        b is RootMissing && !(a is RootMissing) ==> defect_before(a, b),
        a is ChildMissing && (b is BackrefMismatch || b is Cycle) ==> defect_before(a, b),
        a is BackrefMismatch && b is Cycle ==> defect_before(a, b),
        a matches IrDefect::Cycle { node: x } ==> (b matches IrDefect::Cycle { node: y } ==> (defect_before(a, b)
            <==> x.0 < y.0)),
        a matches IrDefect::ChildMissing { parent: x, .. } ==> (b matches IrDefect::ChildMissing { parent: y, .. }
            ==> x.0 < y.0 ==> defect_before(a, b)),
        a matches IrDefect::BackrefMismatch { parent: x, .. } ==> (b matches IrDefect::BackrefMismatch {
            parent: y,
            ..
        } ==> x.0 < y.0 ==> defect_before(a, b)),
        a matches IrDefect::DanglingParent { node: x, .. } ==> (b matches IrDefect::DanglingParent { node: y, .. }
            ==> x.0 < y.0 ==> defect_before(a, b)),
{
}

} // verus!
