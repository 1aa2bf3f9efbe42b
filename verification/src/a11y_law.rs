//! What holds of every accessibility tree.
use vstd::prelude::*;

use crate::a11y::{
    described, tree_of, walk_of, walkable, walked, walked_all, window, A11yModel, Shown, Walk, ROOT_ID,
};
use crate::coherence::{ancestor, coherent, holds, lemma_ancestor_add, on_cycle, IrDefect};
use crate::coherence_law::children_distinct;
use crate::ir::Tree;
use crate::node::NodeId;

verus! {

/// One of the first `n` entries has the id.
pub open spec fn stands_before(s: Seq<(u64, A11yModel)>, n: int, id: u64) -> bool {
    exists|j: int| 0 <= j < n && j < s.len() && (#[trigger] s[j]).0 == id
}

/// The children of every entry stand before it.
pub open spec fn children_first(s: Seq<(u64, A11yModel)>) -> bool {
    forall|i: int, c: int|
        #![trigger s[i].1.children[c]]
        0 <= i < s.len() && 0 <= c < s[i].1.children.len() ==> stands_before(s, i, s[i].1.children[c])
}

/// The node is there and was laid out.
pub open spec fn is_shown(g: Shown, id: NodeId) -> bool {
    g.tree.nodes.dom().contains(id) && g.layout.rects.dom().contains(id)
}

/// The ids of those of the children from `i` on that are there and were laid out, in their order.
pub open spec fn shown_from(g: Shown, kids: Seq<NodeId>, i: int) -> Seq<u64>
    decreases kids.len() - i,
{
    if i < 0 || i >= kids.len() {
        Seq::empty()
    } else if is_shown(g, kids[i]) {
        seq![(kids[i].0 + 1) as u64] + shown_from(g, kids, i + 1)
    } else {
        shown_from(g, kids, i + 1)
    }
}

/// The entry is that of a node that was laid out, with its children that were.
pub open spec fn shows_node(g: Shown, e: (u64, A11yModel)) -> bool {
    exists|id: NodeId|
        #![trigger g.tree.nodes.dom().contains(id)]
        {
            &&& is_shown(g, id)
            &&& e.0 == id.0 + 1
            &&& e.1 == described(
                g.fl,
                g.tree.nodes[id],
                g.layout.rects[id],
                shown_from(g, g.tree.nodes[id].children, 0),
            )
        }
}

/// Every entry is that of a node that was laid out.
pub open spec fn shows_nodes(g: Shown, s: Seq<(u64, A11yModel)>) -> bool {
    forall|i: int| 0 <= i < s.len() ==> shows_node(g, #[trigger] s[i])
}

proof fn lemma_pushed(s: Seq<(u64, A11yModel)>, e: (u64, A11yModel))
    requires
        children_first(s),
        forall|c: int| 0 <= c < e.1.children.len() ==> stands_before(s, s.len() as int, #[trigger] e.1.children[c]),
    ensures
        children_first(s.push(e)),
{
    let t = s.push(e);
    assert forall|i: int, c: int|
        #![trigger t[i].1.children[c]]
        0 <= i < t.len() && 0 <= c < t[i].1.children.len() implies stands_before(t, i, t[i].1.children[c]) by {
        let id = t[i].1.children[c];
        if i < s.len() {
            assert(t[i] == s[i]);
            assert(stands_before(s, i, s[i].1.children[c]));
        }
        let j = choose|j: int| 0 <= j < i && j < s.len() && (#[trigger] s[j]).0 == id;
        assert(t[j].0 == id);
    }
}

/// What a walk that adds entries keeps.
spec fn extends(g: Shown, s: Seq<(u64, A11yModel)>, t: Seq<(u64, A11yModel)>) -> bool {
    &&& s.len() <= t.len()
    &&& forall|i: int| 0 <= i < s.len() ==> t[i] == #[trigger] s[i]
    &&& children_first(t)
    &&& shows_nodes(g, t)
}

proof fn lemma_walked(g: Shown, id: NodeId, n: nat, out: Seq<(u64, A11yModel)>)
    requires
        children_first(out),
        shows_nodes(g, out),
        !g.tree.nodes.dom().contains(NodeId(u64::MAX)),
    ensures
        match walked(g, id, n, out) {
            Walk::Out(t) => extends(g, out, t) && stands_before(t, t.len() as int, (id.0 + 1) as u64),
            _ => true,
        },
    decreases n, 0int, 0int,
{
    if g.tree.nodes.dom().contains(id) && g.layout.rects.dom().contains(id) && n > 0 {
        let node = g.tree.nodes[id];
        let none = Seq::<u64>::empty();
        lemma_walked_all(g, node.children, 0, (n - 1) as nat, out, none);
        match walked_all(g, node.children, 0, (n - 1) as nat, out, none) {
            None => {},
            Some((below, ids)) => {
                assert(id.0 < u64::MAX) by {
                    if id.0 == u64::MAX {
                        assert(id == NodeId(u64::MAX));
                    }
                }
                assert(ids =~= shown_from(g, node.children, 0));
                let e = ((id.0 + 1) as u64, described(g.fl, node, g.layout.rects[id], ids));
                let t = below.push(e);
                lemma_pushed(below, e);
                assert(t[below.len() as int] == e);
                assert(shows_node(g, e));
                assert forall|i: int| 0 <= i < t.len() implies shows_node(g, #[trigger] t[i]) by {
                    if i < below.len() {
                        assert(t[i] == below[i]);
                    }
                }
                assert forall|i: int| 0 <= i < out.len() implies t[i] == #[trigger] out[i] by {
                    assert(below[i] == out[i]);
                }
            },
        }
    }
}

proof fn lemma_walked_all(
    g: Shown,
    kids: Seq<NodeId>,
    i: int,
    n: nat,
    out: Seq<(u64, A11yModel)>,
    ids: Seq<u64>,
)
    requires
        children_first(out),
        shows_nodes(g, out),
        !g.tree.nodes.dom().contains(NodeId(u64::MAX)),
        forall|c: int| 0 <= c < ids.len() ==> stands_before(out, out.len() as int, #[trigger] ids[c]),
    ensures
        match walked_all(g, kids, i, n, out, ids) {
            Some((t, all)) => extends(g, out, t) && all == ids + shown_from(g, kids, i) && forall|c: int|
                0 <= c < all.len() ==> stands_before(t, t.len() as int, #[trigger] all[c]),
            None => true,
        },
    decreases n, 1int, kids.len() - i,
{
    assert(ids + Seq::<u64>::empty() =~= ids);
    if 0 <= i < kids.len() {
        lemma_walked(g, kids[i], n, out);
        match walked(g, kids[i], n, out) {
            Walk::Skipped => {
                lemma_walked_all(g, kids, i + 1, n, out, ids);
            },
            Walk::Deeper => {},
            Walk::Out(below) => {
                let more = ids.push((kids[i].0 + 1) as u64);
                assert forall|c: int| 0 <= c < more.len() implies stands_before(
                    below,
                    below.len() as int,
                    #[trigger] more[c],
                ) by {
                    if c < ids.len() {
                        assert(more[c] == ids[c]);
                        let j = choose|j: int| 0 <= j < out.len() && j < out.len() && (#[trigger] out[j]).0 == ids[c];
                        assert(below[j] == out[j]);
                    }
                }
                lemma_walked_all(g, kids, i + 1, n, below, more);
                assert(more + shown_from(g, kids, i + 1) =~= ids + shown_from(g, kids, i));
                match walked_all(g, kids, i + 1, n, below, more) {
                    Some((t, all)) => {
                        assert forall|k: int| 0 <= k < out.len() implies t[k] == #[trigger] out[k] by {
                            assert(below[k] == out[k]);
                        }
                    },
                    None => {},
                }
            },
        }
    }
}

/// The tree mirrors the document: the window stands last and holds the root, if that was laid
/// out; every other entry is that of a node that was laid out, with the role, the bounds, the
/// label and the actions of that node, and with all of its children that were laid out, in their
/// order; and the children of every entry stand before it. So every node that is reached from
/// the root through nodes that were laid out has an entry.
pub proof fn law_tree_mirrors_document(g: Shown)
    requires
        !g.tree.nodes.dom().contains(NodeId(u64::MAX)),
    ensures
        children_first(tree_of(g)),
        tree_of(g).last().0 == ROOT_ID,
        walkable(g) ==> tree_of(g).last().1 == window(
            if g.tree.root is Some && is_shown(g, g.tree.root->0) {
                seq![((g.tree.root->0).0 + 1) as u64]
            } else {
                Seq::empty()
            },
        ),
        shows_nodes(g, tree_of(g).drop_last()),
{
    let none = Seq::<(u64, A11yModel)>::empty();
    let tree = tree_of(g);
    match walk_of(g) {
        Walk::Out(s) => {
            let root = g.tree.root->0;
            let enough = choose|n: u64| !(#[trigger] walked(g, root, n as nat, Seq::empty()) is Deeper);
            lemma_walked(g, root, enough as nat, none);
            let e = (ROOT_ID, window(seq![(root.0 + 1) as u64]));
            lemma_pushed(s, e);
            assert(tree == s.push(e));
            assert(tree.drop_last() =~= s);
        },
        _ => {
            let e = (ROOT_ID, window(Seq::<u64>::empty()));
            lemma_pushed(none, e);
            assert(tree =~= none.push(e));
            assert(tree.drop_last() =~= none);
        },
    }
}

/// No two ids of nodes meet in the tree, and none is that of the window.
pub proof fn law_ids_stay_apart(a: NodeId, b: NodeId)
    requires
        a.0 < u64::MAX,
        b.0 < u64::MAX,
    ensures
        (a.0 + 1) as u64 != ROOT_ID,
        (a.0 + 1) as u64 == (b.0 + 1) as u64 ==> a == b,
{
}

/// The node `x` is `id` or lies below it.
pub open spec fn lies_below(t: Tree, x: NodeId, id: NodeId) -> bool {
    exists|k: nat| #[trigger] ancestor(t, x, k) == Some(id)
}

/// The node whose entry has the id.
spec fn entered(e: u64) -> NodeId {
    NodeId((e - 1) as u64)
}

/// No id stands twice.
pub open spec fn entries_distinct(s: Seq<(u64, A11yModel)>) -> bool {
    forall|i: int, j: int| 0 <= i < j < s.len() ==> (#[trigger] s[i]).0 != (#[trigger] s[j]).0
}

/// The links around a child agree.
pub proof fn lemma_child(t: Tree, id: NodeId, c: NodeId)
    requires
        coherent(t),
        t.nodes.dom().contains(id),
        t.nodes[id].children.contains(c),
    ensures
        t.nodes.dom().contains(c),
        ancestor(t, c, 1) == Some(id),
        !lies_below(t, id, c),
{
    assert(!holds(t, IrDefect::ChildMissing { parent: id, child: c }));
    assert(!holds(t, IrDefect::BackrefMismatch { parent: id, child: c }));
    assert(ancestor(t, c, 0) == Some(c));
    assert(ancestor(t, c, 1) == Some(id)) by {
        reveal_with_fuel(ancestor, 2);
    }
    if lies_below(t, id, c) {
        let k = choose|k: nat| #[trigger] ancestor(t, id, k) == Some(c);
        lemma_ancestor_add(t, id, k, 1);
        assert(ancestor(t, id, k + 1) == Some(id));
        assert(on_cycle(t, id));
        assert(holds(t, IrDefect::Cycle { node: id }));
    }
}

/// What lies below a child lies below its parent.
pub proof fn lemma_below_child(t: Tree, id: NodeId, c: NodeId, x: NodeId)
    requires
        coherent(t),
        t.nodes.dom().contains(id),
        t.nodes[id].children.contains(c),
        lies_below(t, x, c),
    ensures
        lies_below(t, x, id),
{
    lemma_child(t, id, c);
    let k = choose|k: nat| #[trigger] ancestor(t, x, k) == Some(c);
    lemma_ancestor_add(t, x, k, 1);
    assert(ancestor(t, x, k + 1) == Some(id));
}

proof fn lemma_climb_past(t: Tree, id: NodeId, c: NodeId, d: NodeId, x: NodeId, j: nat, k: nat)
    requires
        coherent(t),
        t.nodes.dom().contains(id),
        t.nodes[id].children.contains(c),
        t.nodes[id].children.contains(d),
        j < k,
        ancestor(t, x, j) == Some(c),
    ensures
        ancestor(t, x, k) != Some(d),
{
    lemma_child(t, id, c);
    lemma_child(t, id, d);
    if ancestor(t, x, k) == Some(d) {
        let up = (k - j) as nat;
        lemma_ancestor_add(t, x, j, up);
        assert(ancestor(t, c, up) == Some(d));
        lemma_ancestor_add(t, c, 1, (up - 1) as nat);
        assert(1 + (up - 1) as nat == up);
        assert(ancestor(t, id, (up - 1) as nat) == Some(d));
        assert(lies_below(t, id, d));
    }
}

/// Nothing lies below two children of a node.
pub proof fn lemma_children_apart(t: Tree, id: NodeId, c: NodeId, d: NodeId, x: NodeId)
    requires
        coherent(t),
        t.nodes.dom().contains(id),
        t.nodes[id].children.contains(c),
        t.nodes[id].children.contains(d),
        c != d,
        lies_below(t, x, c),
    ensures
        !lies_below(t, x, d),
{
    if lies_below(t, x, d) {
        let j = choose|k: nat| #[trigger] ancestor(t, x, k) == Some(c);
        let k = choose|k: nat| #[trigger] ancestor(t, x, k) == Some(d);
        if j < k {
            lemma_climb_past(t, id, c, d, x, j, k);
        } else if k < j {
            lemma_climb_past(t, id, d, c, x, k, j);
        }
    }
}

/// The entries stand for themselves, and none is for a node below `id`.
spec fn clear_of(t: Tree, s: Seq<(u64, A11yModel)>, id: NodeId) -> bool {
    forall|i: int| 0 <= i < s.len() ==> !lies_below(t, entered((#[trigger] s[i]).0), id)
}

proof fn lemma_walked_once(g: Shown, id: NodeId, n: nat, out: Seq<(u64, A11yModel)>)
    requires
        coherent(g.tree),
        children_distinct(g.tree),
        !g.tree.nodes.dom().contains(NodeId(u64::MAX)),
        entries_distinct(out),
        clear_of(g.tree, out, id),
    ensures
        match walked(g, id, n, out) {
            Walk::Out(t) => {
                &&& out.len() <= t.len()
                &&& forall|i: int| 0 <= i < out.len() ==> t[i] == #[trigger] out[i]
                &&& entries_distinct(t)
                &&& forall|i: int| out.len() <= i < t.len() ==> lies_below(g.tree, entered((#[trigger] t[i]).0), id)
            },
            _ => true,
        },
    decreases n, 0int, 0int,
{
    let tree = g.tree;
    if is_shown(g, id) && n > 0 {
        let kids = tree.nodes[id].children;
        let none = Seq::<u64>::empty();
        assert forall|j: int| 0 <= j < kids.len() implies clear_of(tree, out, #[trigger] kids[j]) by {
            assert(kids.contains(kids[j]));
            assert forall|i: int| 0 <= i < out.len() implies !lies_below(tree, entered((#[trigger] out[i]).0), kids[j]) by {
                if lies_below(tree, entered(out[i].0), kids[j]) {
                    lemma_below_child(tree, id, kids[j], entered(out[i].0));
                }
            }
        }
        lemma_walked_all_once(g, id, 0, (n - 1) as nat, out, none);
        match walked_all(g, kids, 0, (n - 1) as nat, out, none) {
            None => {},
            Some((below, ids)) => {
                assert(id.0 < u64::MAX) by {
                    if id.0 == u64::MAX {
                        assert(id == NodeId(u64::MAX));
                    }
                }
                let e = ((id.0 + 1) as u64, described(g.fl, tree.nodes[id], g.layout.rects[id], ids));
                let t = below.push(e);
                assert(entered(e.0) == id);
                assert(ancestor(tree, id, 0) == Some(id));
                assert(lies_below(tree, id, id));
                assert forall|i: int| 0 <= i < below.len() implies (#[trigger] below[i]).0 != e.0 by {
                    if i < out.len() {
                        assert(below[i] == out[i]);
                    } else {
                        let j = choose|j: int| 0 <= j < kids.len() && lies_below(tree, entered(below[i].0), #[trigger] kids[j]);
                        assert(kids.contains(kids[j]));
                        lemma_child(tree, id, kids[j]);
                    }
                }
                assert(entries_distinct(t)) by {
                    assert forall|i: int, j: int| 0 <= i < j < t.len() implies (#[trigger] t[i]).0 != (#[trigger] t[j]).0 by {
                        assert(t[i] == below[i]);
                        if j < below.len() {
                            assert(t[j] == below[j]);
                        }
                    }
                }
                assert forall|i: int| 0 <= i < out.len() implies t[i] == #[trigger] out[i] by {
                    assert(below[i] == out[i]);
                }
                assert forall|i: int| out.len() <= i < t.len() implies lies_below(tree, entered((#[trigger] t[i]).0), id) by {
                    if i < below.len() {
                        assert(t[i] == below[i]);
                        let j = choose|j: int| 0 <= j < kids.len() && lies_below(tree, entered(below[i].0), #[trigger] kids[j]);
                        assert(kids.contains(kids[j]));
                        lemma_below_child(tree, id, kids[j], entered(below[i].0));
                    }
                }
            },
        }
    }
}

proof fn lemma_walked_all_once(g: Shown, id: NodeId, i: int, n: nat, out: Seq<(u64, A11yModel)>, ids: Seq<u64>)
    requires
        coherent(g.tree),
        children_distinct(g.tree),
        !g.tree.nodes.dom().contains(NodeId(u64::MAX)),
        g.tree.nodes.dom().contains(id),
        entries_distinct(out),
        0 <= i,
        forall|j: int| i <= j < g.tree.nodes[id].children.len() ==> clear_of(g.tree, out, #[trigger] g.tree.nodes[id].children[j]),
    ensures
        match walked_all(g, g.tree.nodes[id].children, i, n, out, ids) {
            Some((t, _)) => {
                &&& out.len() <= t.len()
                &&& forall|k: int| 0 <= k < out.len() ==> t[k] == #[trigger] out[k]
                &&& entries_distinct(t)
                &&& forall|k: int|
                    out.len() <= k < t.len() ==> exists|j: int|
                        0 <= j < g.tree.nodes[id].children.len() && lies_below(
                            g.tree,
                            entered((#[trigger] t[k]).0),
                            #[trigger] g.tree.nodes[id].children[j],
                        )
            },
            None => true,
        },
    decreases n, 1int, g.tree.nodes[id].children.len() - i,
{
    let tree = g.tree;
    let kids = tree.nodes[id].children;
    if i < kids.len() {
        assert(clear_of(tree, out, kids[i]));
        lemma_walked_once(g, kids[i], n, out);
        match walked(g, kids[i], n, out) {
            Walk::Skipped => {
                lemma_walked_all_once(g, id, i + 1, n, out, ids);
            },
            Walk::Deeper => {},
            Walk::Out(below) => {
                let more = ids.push((kids[i].0 + 1) as u64);
                assert forall|j: int| i + 1 <= j < kids.len() implies clear_of(tree, below, #[trigger] kids[j]) by {
                    assert(clear_of(tree, out, kids[j]));
                    assert(kids.contains(kids[i]) && kids.contains(kids[j]));
                    assert forall|k: int| 0 <= k < below.len() implies !lies_below(
                        tree,
                        entered((#[trigger] below[k]).0),
                        kids[j],
                    ) by {
                        if k < out.len() {
                            assert(below[k] == out[k]);
                        } else {
                            lemma_children_apart(tree, id, kids[i], kids[j], entered(below[k].0));
                        }
                    }
                }
                lemma_walked_all_once(g, id, i + 1, n, below, more);
                match walked_all(g, kids, i + 1, n, below, more) {
                    Some((t, _)) => {
                        assert forall|k: int| 0 <= k < out.len() implies t[k] == #[trigger] out[k] by {
                            assert(below[k] == out[k]);
                        }
                        assert forall|k: int| out.len() <= k < t.len() implies exists|j: int|
                            0 <= j < kids.len() && lies_below(tree, entered((#[trigger] t[k]).0), #[trigger] kids[j]) by {
                            if k < below.len() {
                                assert(t[k] == below[k]);
                                assert(lies_below(tree, entered(t[k].0), kids[i]));
                            }
                        }
                    },
                    None => {},
                }
            },
        }
    }
}

/// In the tree of a document whose links agree, and which lists no child twice, every node has
/// one entry at most.
pub proof fn law_every_node_once(g: Shown)
    requires
        coherent(g.tree),
        children_distinct(g.tree),
        !g.tree.nodes.dom().contains(NodeId(u64::MAX)),
    ensures
        entries_distinct(tree_of(g)),
{
    let none = Seq::<(u64, A11yModel)>::empty();
    match walk_of(g) {
        Walk::Out(s) => {
            let root = g.tree.root->0;
            let enough = choose|n: u64| !(#[trigger] walked(g, root, n as nat, Seq::empty()) is Deeper);
            lemma_walked_once(g, root, enough as nat, none);
            lemma_walked(g, root, enough as nat, none);
            let e = (ROOT_ID, window(seq![(root.0 + 1) as u64]));
            let t = s.push(e);
            assert(tree_of(g) == t);
            assert forall|i: int, j: int| 0 <= i < j < t.len() implies (#[trigger] t[i]).0 != (#[trigger] t[j]).0 by {
                assert(t[i] == s[i]);
                assert(shows_node(g, s[i]));
                if j < s.len() {
                    assert(t[j] == s[j]);
                }
            }
        },
        _ => {},
    }
}

} // verus!
