//! What single edits do to a document that only grows, and what becomes of many of them.
use vstd::prelude::*;

use crate::ir::{DocModel, MutationModel, Tree};
use crate::lowering::{created, sys};
use crate::lowering_law::{lemma_created_sprouts, lemma_younger_not_above, sprouting};
use crate::node::{NodeId, NodeModel};
use crate::value::{ActionModel, ValueModel};

verus! {

/// The map with entries put in one after the other, a later one in place of an earlier one of the
/// same name.
pub open spec fn poured<V>(m: Map<Seq<char>, V>, entries: Seq<(Seq<char>, V)>) -> Map<Seq<char>, V>
    decreases entries.len(),
{
    if entries.len() == 0 {
        m
    } else {
        poured(m, entries.drop_last()).insert(entries.last().0, entries.last().1)
    }
}

/// Entries poured one after the other are poured together.
pub proof fn lemma_poured<V>(m: Map<Seq<char>, V>, a: Seq<(Seq<char>, V)>, b: Seq<(Seq<char>, V)>)
    ensures
        poured(poured(m, a), b) == poured(m, a + b),
    decreases b.len(),
{
    if b.len() == 0 {
        assert(a + b =~= a);
    } else {
        lemma_poured(m, a, b.drop_last());
        assert((a + b).drop_last() =~= a + b.drop_last());
    }
}

/// One entry is put in.
pub proof fn lemma_poured_one<V>(m: Map<Seq<char>, V>, k: Seq<char>, v: V)
    ensures
        poured(m, seq![(k, v)]) == m.insert(k, v),
{
    reveal_with_fuel(poured, 2);
    assert(seq![(k, v)].drop_last() =~= Seq::empty());
}

/// Two nodes differ in nothing but where they hang.
pub open spec fn alike(a: NodeModel, b: NodeModel) -> bool {
    &&& a.kind == b.kind
    &&& a.props == b.props
    &&& a.callbacks == b.callbacks
    &&& a.bindings == b.bindings
    &&& a.children == b.children
}

/// Every node of `a` from an id on is in `b`, with nothing changed but where it hangs.
pub open spec fn spared(a: Tree, b: Tree, from: int) -> bool {
    forall|x: NodeId| #[trigger]
        a.nodes.dom().contains(x) && x.0 >= from ==> b.nodes.dom().contains(x) && alike(a.nodes[x], b.nodes[x])
}

/// The later document has the nodes of the earlier one as they were, but for one of them.
pub open spec fn touched(a: DocModel, b: DocModel, id: NodeId) -> bool {
    &&& a.next_id <= b.next_id
    &&& forall|x: NodeId| #[trigger]
        a.tree.nodes.dom().contains(x) ==> b.tree.nodes.dom().contains(x) && (x == id || b.tree.nodes[x]
            == a.tree.nodes[x])
    &&& a.tree.nodes.dom().contains(id) ==> {
        &&& b.tree.nodes[id].kind == a.tree.nodes[id].kind
        &&& b.tree.nodes[id].parent == a.tree.nodes[id].parent
    }
    &&& a.tree.root == b.tree.root
}

/// A fresh node has its kind and nothing else, and every other node stays as it was.
pub proof fn lemma_created_exact(d: DocModel, kind: Seq<char>)
    requires
        sprouting(d),
        d.next_id < u64::MAX,
    ensures
        ({
            let r = created(d, kind);
            let id = NodeId(d.next_id);
            &&& r.tree.nodes.dom().contains(id)
            &&& r.tree.nodes[id].kind == kind
            &&& r.tree.nodes[id].props == Map::<Seq<char>, ValueModel>::empty()
            &&& r.tree.nodes[id].callbacks == Map::<Seq<char>, ActionModel>::empty()
            &&& r.tree.nodes[id].bindings == Map::<Seq<char>, Seq<char>>::empty()
            &&& r.tree.nodes[id].children == Seq::<NodeId>::empty()
            &&& r.tree.nodes[id].parent is None
            &&& touched(d, r, id)
            &&& r.next_id == d.next_id + 1
            &&& sprouting(r)
            &&& !d.tree.nodes.dom().contains(id)
        }),
{
    lemma_created_sprouts(d, kind);
    assert(!d.tree.nodes.dom().contains(NodeId(d.next_id)));
}

/// A property that is set is on its node, with what was there before.
pub proof fn lemma_prop_exact(d: DocModel, id: NodeId, key: Seq<char>, value: ValueModel)
    requires
        sprouting(d),
        d.tree.nodes.dom().contains(id),
    ensures
        ({
            let r = sys(d, MutationModel::SetProp { id, key, value });
            &&& touched(d, r, id)
            &&& r.next_id == d.next_id
            &&& r.tree.nodes[id] == NodeModel { props: d.tree.nodes[id].props.insert(key, value), ..d.tree.nodes[id] }
            &&& sprouting(r)
        }),
{
    crate::lowering_law::lemma_set_sprouts(d, MutationModel::SetProp { id, key, value });
}

/// A callback that is set is on its node, with what was there before.
pub proof fn lemma_callback_exact(d: DocModel, id: NodeId, event: Seq<char>, action: ActionModel)
    requires
        sprouting(d),
        d.tree.nodes.dom().contains(id),
    ensures
        ({
            let r = sys(d, MutationModel::SetCallback { id, event, action });
            &&& touched(d, r, id)
            &&& r.next_id == d.next_id
            &&& r.tree.nodes[id] == NodeModel {
                callbacks: d.tree.nodes[id].callbacks.insert(event, action),
                ..d.tree.nodes[id]
            }
            &&& sprouting(r)
        }),
{
    crate::lowering_law::lemma_set_sprouts(d, MutationModel::SetCallback { id, event, action });
}

/// A binding that is set is on its node, with what was there before.
pub proof fn lemma_binding_exact(d: DocModel, id: NodeId, key: Seq<char>, binding: Seq<char>)
    requires
        sprouting(d),
        d.tree.nodes.dom().contains(id),
    ensures
        ({
            let r = sys(d, MutationModel::SetBinding { id, key, binding });
            &&& touched(d, r, id)
            &&& r.next_id == d.next_id
            &&& r.tree.nodes[id] == NodeModel {
                bindings: d.tree.nodes[id].bindings.insert(key, binding),
                ..d.tree.nodes[id]
            }
            &&& sprouting(r)
        }),
{
    crate::lowering_law::lemma_set_sprouts(d, MutationModel::SetBinding { id, key, binding });
}

/// A younger node without a parent that is hung under an older one becomes its last child.
pub proof fn lemma_hung_exact(d: DocModel, parent: NodeId, child: NodeId)
    requires
        sprouting(d),
        d.tree.nodes.dom().contains(parent),
        d.tree.nodes.dom().contains(child),
        d.tree.nodes[child].parent is None,
        parent.0 < child.0,
    ensures
        ({
            let r = sys(d, MutationModel::AppendChild { parent, child });
            &&& r.next_id == d.next_id
            &&& r.tree.root == d.tree.root
            &&& r.tree.nodes.dom() == d.tree.nodes.dom()
            &&& r.tree.nodes[parent] == NodeModel {
                children: d.tree.nodes[parent].children.push(child),
                ..d.tree.nodes[parent]
            }
            &&& alike(d.tree.nodes[child], r.tree.nodes[child])
            &&& forall|x: NodeId| x != parent && x != child ==> #[trigger] r.tree.nodes[x] == d.tree.nodes[x]
            &&& sprouting(r)
        }),
{
    let r = sys(d, MutationModel::AppendChild { parent, child });
    lemma_younger_not_above(d.tree, parent, child);
    crate::lowering_law::lemma_hung_sprouts(crate::ir::empty_doc(), d, parent, child);
}

} // verus!
