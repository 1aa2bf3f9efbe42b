//! What holds of every document that only grows: fresh nodes, what is set on them, and each hung
//! under an earlier one. Readers of source texts make their documents so.
use vstd::prelude::*;

use crate::coherence::{above, ancestor, coherent, holds, on_cycle, IrDefect};
use crate::coherence_law::{children_distinct, law_coherent_can_be_walked};
use crate::ir::{empty_doc, step, DocModel, EditModel, MutationModel, Origin, Tree};
use crate::lowering::{created, grown, sys, tidy};
use crate::node::NodeId;
use crate::walk::{ends, finite, rooted};

verus! {

/// The child lists and the parents agree, and every parent has a smaller id than its children.
pub open spec fn wired(t: Tree) -> bool {
    &&& forall|p: NodeId, c: NodeId|
        #![trigger t.nodes[p].children.contains(c)]
        t.nodes.dom().contains(p) && t.nodes[p].children.contains(c) ==> t.nodes.dom().contains(c)
            && t.nodes[c].parent == Some(p)
    &&& forall|c: NodeId|
        #![trigger t.nodes[c].parent]
        t.nodes.dom().contains(c) ==> match t.nodes[c].parent {
            Some(p) => p.0 < c.0 && t.nodes.dom().contains(p) && t.nodes[p].children.contains(c),
            None => true,
        }
}

/// Two documents have the same links, root and next id, and the second was made of the first by
/// the system.
spec fn same_links(a: DocModel, b: DocModel) -> bool {
    &&& a.next_id == b.next_id
    &&& a.tree.root == b.tree.root
    &&& a.tree.nodes.dom() == b.tree.nodes.dom()
    &&& forall|id: NodeId|
        #![trigger b.tree.nodes[id]]
        a.tree.nodes.dom().contains(id) ==> a.tree.nodes[id].children == b.tree.nodes[id].children
            && a.tree.nodes[id].parent == b.tree.nodes[id].parent
}

/// Every edit in the log was made by the system.
pub open spec fn by_system(log: Seq<EditModel>) -> bool {
    forall|i: int| 0 <= i < log.len() ==> (#[trigger] log[i]).origin == Origin::System
}

/// What is set on a node changes no link.
proof fn lemma_links_kept(d: DocModel, m: MutationModel)
    requires
        m is SetProp || m is SetBinding || m is SetCallback,
        by_system(d.log),
    ensures
        same_links(d, sys(d, m)),
        by_system(sys(d, m).log),
{
    match step(d.tree, m) {
        Ok(u) => {
            assert(u.nodes.dom() =~= d.tree.nodes.dom());
        },
        Err(_) => {},
    }
}

/// Links that are the same are wired alike.
proof fn lemma_wired_same(a: DocModel, b: DocModel)
    requires
        same_links(a, b),
        wired(a.tree),
        tidy(a),
    ensures
        wired(b.tree),
        tidy(b),
{
    assert forall|p: NodeId, c: NodeId|
        #![trigger b.tree.nodes[p].children.contains(c)]
        b.tree.nodes.dom().contains(p) && b.tree.nodes[p].children.contains(c) implies b.tree.nodes.dom().contains(c)
        && b.tree.nodes[c].parent == Some(p) by {
        assert(a.tree.nodes[p].children.contains(c));
    }
    assert forall|c: NodeId|
        #![trigger b.tree.nodes[c].parent]
        b.tree.nodes.dom().contains(c) implies match b.tree.nodes[c].parent {
        Some(p) => p.0 < c.0 && b.tree.nodes.dom().contains(p) && b.tree.nodes[p].children.contains(c),
        None => true,
    } by {
        match a.tree.nodes[c].parent {
            Some(p) => {
                assert(a.tree.nodes[p].children == b.tree.nodes[p].children);
            },
            None => {},
        }
    }
}

/// What lowering an element does to the rest of the document.
spec fn grew(d: DocModel, r: DocModel, size: nat) -> bool {
    &&& tidy(r)
    &&& wired(r.tree)
    &&& by_system(r.log)
    &&& r.next_id == d.next_id + size
    &&& r.tree.root == d.tree.root
}

/// A fresh node keeps the links wired.
proof fn lemma_created_wired(d: DocModel, kind: Seq<char>)
    requires
        tidy(d),
        wired(d.tree),
        by_system(d.log),
        d.next_id < u64::MAX,
    ensures
        grew(d, created(d, kind), 1),
        created(d, kind).tree.nodes.dom().contains(NodeId(d.next_id)),
        created(d, kind).tree.nodes[NodeId(d.next_id)].children == Seq::<NodeId>::empty(),
        created(d, kind).tree.nodes[NodeId(d.next_id)].parent is None,
{
    let r = created(d, kind);
    let new = NodeId(d.next_id);
    assert(!d.tree.nodes.dom().contains(new));
    assert forall|p: NodeId, c: NodeId|
        #![trigger r.tree.nodes[p].children.contains(c)]
        r.tree.nodes.dom().contains(p) && r.tree.nodes[p].children.contains(c) implies r.tree.nodes.dom().contains(c)
        && r.tree.nodes[c].parent == Some(p) by {
        if p != new {
            assert(d.tree.nodes[p].children.contains(c));
        }
    }
    assert forall|c: NodeId|
        #![trigger r.tree.nodes[c].parent]
        r.tree.nodes.dom().contains(c) implies match r.tree.nodes[c].parent {
        Some(p) => p.0 < c.0 && r.tree.nodes.dom().contains(p) && r.tree.nodes[p].children.contains(c),
        None => true,
    } by {
        if c != new {
            assert(d.tree.nodes[c].parent == r.tree.nodes[c].parent);
        }
    }
}

/// Hanging a node without a parent under an earlier one keeps the links wired.
proof fn lemma_append_wired(d: DocModel, parent: NodeId, child: NodeId)
    requires
        tidy(d),
        wired(d.tree),
        by_system(d.log),
        d.tree.nodes.dom().contains(parent),
        d.tree.nodes.dom().contains(child),
        d.tree.nodes[child].parent is None,
        parent.0 < child.0,
    ensures
        ({
            let r = sys(d, MutationModel::AppendChild { parent, child });
            &&& grew(d, r, 0)
            &&& r.tree.nodes.dom() == d.tree.nodes.dom()
            &&& r.tree.nodes[parent].children == d.tree.nodes[parent].children.push(child)
            &&& r.tree.nodes[parent].parent == d.tree.nodes[parent].parent
            &&& r.tree.nodes[child].children == d.tree.nodes[child].children
            &&& forall|id: NodeId|
                #![trigger r.tree.nodes[id]]
                id != parent && id != child ==> r.tree.nodes[id] == d.tree.nodes[id]
        }),
{
    let r = sys(d, MutationModel::AppendChild { parent, child });
    let old_kids = d.tree.nodes[parent].children;
    assert(!old_kids.contains(child));
    lemma_younger_not_above(d.tree, parent, child);
    assert(r.tree.nodes.dom() =~= d.tree.nodes.dom());
    assert forall|p: NodeId, c: NodeId|
        #![trigger r.tree.nodes[p].children.contains(c)]
        r.tree.nodes.dom().contains(p) && r.tree.nodes[p].children.contains(c) implies r.tree.nodes.dom().contains(c)
        && r.tree.nodes[c].parent == Some(p) by {
        if p == parent {
            let k = choose|k: int| 0 <= k < r.tree.nodes[p].children.len() && r.tree.nodes[p].children[k] == c;
            if k < old_kids.len() {
                assert(old_kids[k] == c);
                assert(d.tree.nodes[p].children.contains(c));
            }
        } else {
            assert(d.tree.nodes[p].children.contains(c));
        }
    }
    assert forall|c: NodeId|
        #![trigger r.tree.nodes[c].parent]
        r.tree.nodes.dom().contains(c) implies match r.tree.nodes[c].parent {
        Some(p) => p.0 < c.0 && r.tree.nodes.dom().contains(p) && r.tree.nodes[p].children.contains(c),
        None => true,
    } by {
        if c == child {
            let k = old_kids.len() as int;
            assert(r.tree.nodes[parent].children[k] == child);
        } else {
            match d.tree.nodes[c].parent {
                Some(p) => {
                    assert(d.tree.nodes[p].children.contains(c));
                    if p == parent {
                        let k = choose|k: int| 0 <= k < old_kids.len() && old_kids[k] == c;
                        assert(r.tree.nodes[parent].children[k] == c);
                    }
                },
                None => {},
            }
        }
    }
}

proof fn lemma_ancestor_shift(t: Tree, c: NodeId, k: nat)
    requires
        t.nodes.dom().contains(c),
        t.nodes[c].parent is Some,
    ensures
        ancestor(t, c, k + 1) == ancestor(t, t.nodes[c].parent->0, k),
    decreases k,
{
    if k == 0 {
        assert(ancestor(t, c, 0) == Some(c));
        reveal_with_fuel(ancestor, 3);
    } else {
        lemma_ancestor_shift(t, c, (k - 1) as nat);
        assert(ancestor(t, c, k + 1) == match ancestor(t, c, k) {
            Some(x) => if t.nodes.dom().contains(x) {
                t.nodes[x].parent
            } else {
                None
            },
            None => None,
        });
    }
}

proof fn lemma_wired_ends(t: Tree, c: NodeId)
    requires
        wired(t),
    ensures
        ends(t, c),
    decreases c.0,
{
    if t.nodes.dom().contains(c) {
        match t.nodes[c].parent {
            Some(p) => {
                lemma_wired_ends(t, p);
                let k: nat = choose|k: nat| #[trigger] ancestor(t, p, k) is None;
                lemma_ancestor_shift(t, c, k);
                assert(ancestor(t, c, k + 1) is None);
            },
            None => {
                assert(ancestor(t, c, 0) == Some(c));
                assert(ancestor(t, c, 1) is None);
            },
        }
    } else {
        assert(ancestor(t, c, 0) == Some(c));
        assert(ancestor(t, c, 1) is None);
    }
}

proof fn lemma_ancestor_smaller(t: Tree, c: NodeId, k: nat)
    requires
        wired(t),
        k >= 1,
        ancestor(t, c, k) is Some,
    ensures
        (ancestor(t, c, k)->0).0 < c.0,
    decreases k,
{
    let before = ancestor(t, c, (k - 1) as nat);
    match before {
        Some(x) => {
            assert(t.nodes.dom().contains(x));
            assert(t.nodes[x].parent == ancestor(t, c, k));
            if k > 1 {
                lemma_ancestor_smaller(t, c, (k - 1) as nat);
            } else {
                assert(x == c);
            }
        },
        None => {},
    }
}

/// Where the links are wired, no node lies above an older one.
pub proof fn lemma_younger_not_above(t: Tree, older: NodeId, younger: NodeId)
    requires
        wired(t),
        older.0 < younger.0,
    ensures
        !above(t, younger, older),
{
    if above(t, younger, older) {
        let k = choose|k: nat| #[trigger] ancestor(t, older, k) == Some(younger);
        if k >= 1 {
            lemma_ancestor_smaller(t, older, k);
        }
    }
}

/// Where the links are wired, they agree.
pub proof fn law_wired_is_coherent(t: Tree)
    requires
        wired(t),
        match t.root {
            Some(root) => t.nodes.dom().contains(root),
            None => true,
        },
    ensures
        coherent(t),
        rooted(t),
{
    assert forall|d: IrDefect| !#[trigger] holds(t, d) by {
        match d {
            IrDefect::RootMissing { root } => {},
            IrDefect::DanglingParent { node, parent } => {
                assert(t.nodes[node].parent == t.nodes[node].parent);
            },
            IrDefect::ChildMissing { parent, child } => {
                assert(t.nodes[parent].children.contains(child) == t.nodes[parent].children.contains(child));
            },
            IrDefect::BackrefMismatch { parent, child } => {
                assert(t.nodes[child].parent == t.nodes[child].parent);
                assert(t.nodes[parent].children.contains(child) == t.nodes[parent].children.contains(child));
            },
            IrDefect::Cycle { node } => {
                if on_cycle(t, node) {
                    let k: nat = choose|k: nat| k >= 1 && #[trigger] ancestor(t, node, k) == Some(node);
                    lemma_ancestor_smaller(t, node, k);
                }
            },
        }
    }
    assert forall|id: NodeId| #[trigger] t.nodes.dom().contains(id) implies ends(t, id) by {
        lemma_wired_ends(t, id);
    }
}

/// A document as it grows by fresh nodes that are hung under earlier ones: its links are wired, no
/// child is listed twice, there are no more nodes than ids were handed out, the root is there,
/// and the system alone made it.
pub open spec fn sprouting(d: DocModel) -> bool {
    &&& tidy(d)
    &&& wired(d.tree)
    &&& children_distinct(d.tree)
    &&& by_system(d.log)
    &&& d.tree.nodes.dom().finite()
    &&& d.tree.nodes.dom().len() <= d.next_id
    &&& match d.tree.root {
        Some(root) => d.tree.nodes.dom().contains(root),
        None => true,
    }
}

/// A later document in which the nodes of the earlier one have the parents that they had.
pub open spec fn rooted_in(a: DocModel, b: DocModel) -> bool {
    &&& grown(a, b)
    &&& forall|id: NodeId|
        #![trigger b.tree.nodes[id].parent]
        a.tree.nodes.dom().contains(id) ==> b.tree.nodes[id].parent == a.tree.nodes[id].parent
}

/// A document whose links agree and which can be walked down and up, made by the system alone.
pub open spec fn orderly(d: DocModel) -> bool {
    &&& coherent(d.tree)
    &&& children_distinct(d.tree)
    &&& finite(d.tree)
    &&& rooted(d.tree)
    &&& by_system(d.log)
}

/// What has only sprouted is orderly.
pub proof fn lemma_sprouting_orderly(d: DocModel)
    requires
        sprouting(d),
    ensures
        orderly(d),
{
    law_wired_is_coherent(d.tree);
    law_coherent_can_be_walked(d.tree);
}

/// The empty document can sprout.
pub proof fn lemma_empty_sprouting()
    ensures
        sprouting(empty_doc()),
{
}

/// A fresh node sprouts without a parent.
pub proof fn lemma_created_sprouts(d: DocModel, kind: Seq<char>)
    requires
        sprouting(d),
        d.next_id < u64::MAX,
    ensures
        sprouting(created(d, kind)),
        rooted_in(d, created(d, kind)),
        created(d, kind).tree.nodes[NodeId(d.next_id)].parent is None,
{
    lemma_created_wired(d, kind);
    let r = created(d, kind);
    assert(r.tree.nodes.dom() =~= d.tree.nodes.dom().insert(NodeId(d.next_id)));
    assert forall|id: NodeId| #[trigger] r.tree.nodes.dom().contains(id) implies r.tree.nodes[id].children.no_duplicates() by {
        if id != NodeId(d.next_id) {
            assert(d.tree.nodes.dom().contains(id));
        }
    }
}

/// What is set on a node, and which node is the root, changes no link.
pub proof fn lemma_set_sprouts(d: DocModel, m: MutationModel)
    requires
        sprouting(d),
        m is SetProp || m is SetBinding || m is SetCallback || m is SetRoot,
    ensures
        sprouting(sys(d, m)),
        rooted_in(d, sys(d, m)),
{
    let r = sys(d, m);
    assert(r.tree.nodes.dom() =~= d.tree.nodes.dom());
    if !(m is SetRoot) {
        lemma_links_kept(d, m);
        lemma_wired_same(d, r);
    } else {
        assert(r.tree.nodes == d.tree.nodes);
    }
    assert forall|id: NodeId| #[trigger] r.tree.nodes.dom().contains(id) implies r.tree.nodes[id].children.no_duplicates() by {
        assert(d.tree.nodes.dom().contains(id));
        assert(r.tree.nodes[id].children == d.tree.nodes[id].children);
    }
    assert forall|id: NodeId|
        #![trigger r.tree.nodes[id].parent]
        d.tree.nodes.dom().contains(id) implies r.tree.nodes[id].parent == d.tree.nodes[id].parent by {
        assert(r.tree.nodes[id].parent == r.tree.nodes[id].parent);
    }
}

/// A node without a parent is hung under an earlier one; to the documents before it came, no
/// parent has changed.
pub proof fn lemma_hung_sprouts(a: DocModel, d: DocModel, parent: NodeId, child: NodeId)
    requires
        tidy(a),
        rooted_in(a, d),
        a.next_id <= child.0,
        sprouting(d),
        d.tree.nodes.dom().contains(parent),
        d.tree.nodes.dom().contains(child),
        d.tree.nodes[child].parent is None,
        parent.0 < child.0,
    ensures
        sprouting(sys(d, MutationModel::AppendChild { parent, child })),
        rooted_in(a, sys(d, MutationModel::AppendChild { parent, child })),
        sys(d, MutationModel::AppendChild { parent, child }).tree.nodes.dom() == d.tree.nodes.dom(),
        sys(d, MutationModel::AppendChild { parent, child }).next_id == d.next_id,
        forall|id: NodeId|
            #![trigger sys(d, MutationModel::AppendChild { parent, child }).tree.nodes[id].parent]
            id != child ==> sys(d, MutationModel::AppendChild { parent, child }).tree.nodes[id].parent
                == d.tree.nodes[id].parent,
{
    let r = sys(d, MutationModel::AppendChild { parent, child });
    lemma_append_wired(d, parent, child);
    let old_kids = d.tree.nodes[parent].children;
    assert(!old_kids.contains(child));
    assert(old_kids.no_duplicates());
    assert(old_kids.push(child).no_duplicates());
    assert forall|id: NodeId| #[trigger] r.tree.nodes.dom().contains(id) implies r.tree.nodes[id].children.no_duplicates() by {
        assert(d.tree.nodes.dom().contains(id));
        assert(r.tree.nodes[id] == r.tree.nodes[id]);
    }
    assert forall|id: NodeId|
        #![trigger r.tree.nodes[id].parent]
        a.tree.nodes.dom().contains(id) implies r.tree.nodes[id].parent == a.tree.nodes[id].parent by {
        assert(id != child);
        assert(d.tree.nodes[id].parent == a.tree.nodes[id].parent);
    }
}

} // verus!
