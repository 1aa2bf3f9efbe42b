//! What document an element of the markup becomes.
use vstd::prelude::*;

use crate::dsl::{document_of, lowered, lowered_all, with_bindings, with_entries, with_handlers};
use crate::dsl_syntax::{elements_in, elements_in_all, CallbackModel, ElementModel, PropModel, PropValueModel};
use crate::grow_law::{
    alike, lemma_binding_exact, lemma_callback_exact, lemma_created_exact, lemma_hung_exact, lemma_prop_exact, poured,
    spared, touched,
};
use crate::ir::{empty_doc, DocModel, MutationModel, Tree};
use crate::lowering::{created, sys};
use crate::lowering_law::{lemma_empty_sprouting, sprouting};
use crate::node::{NodeId, NodeModel};
use crate::value::{ActionModel, ValueModel};

verus! {

/// The literals among properties, under their names.
pub open spec fn literals(ps: Seq<PropModel>) -> Seq<(Seq<char>, ValueModel)>
    decreases ps.len(),
{
    if ps.len() == 0 {
        Seq::empty()
    } else {
        match ps.last().value {
            PropValueModel::Literal(v) => literals(ps.drop_last()).push((ps.last().key, v)),
            PropValueModel::Binding(_) => literals(ps.drop_last()),
        }
    }
}

/// The bindings among properties, under their names.
pub open spec fn bound(ps: Seq<PropModel>) -> Seq<(Seq<char>, Seq<char>)>
    decreases ps.len(),
{
    if ps.len() == 0 {
        Seq::empty()
    } else {
        match ps.last().value {
            PropValueModel::Literal(_) => bound(ps.drop_last()),
            PropValueModel::Binding(b) => bound(ps.drop_last()).push((ps.last().key, b)),
        }
    }
}

/// The actions of handlers, under their events.
pub open spec fn handled(cs: Seq<CallbackModel>) -> Seq<(Seq<char>, ActionModel)> {
    cs.map_values(|c: CallbackModel| (c.event, ActionModel { name: c.action, args: c.args }))
}

/// The node shows the element: it is of its kind, its properties are the literals and its bindings
/// the conditions and bindings of the element, its callbacks are the handlers, and its children,
/// younger than it, show the children of the element in their order.
pub open spec fn shows(t: Tree, id: NodeId, e: ElementModel) -> bool
    decreases e,
{
    let n = t.nodes[id];
    &&& t.nodes.dom().contains(id)
    &&& n.kind == e.kind
    &&& n.props == poured(Map::empty(), literals(e.props))
    &&& n.bindings == poured(poured(Map::empty(), e.bindings), bound(e.props))
    &&& n.callbacks == poured(Map::empty(), handled(e.callbacks))
    &&& n.children.len() == e.children.len()
    &&& forall|i: int| 0 <= i < e.children.len() ==> id.0 < (#[trigger] n.children[i]).0
    &&& forall|i: int| 0 <= i < e.children.len() ==> shows(t, n.children[i], #[trigger] e.children[i])
}

proof fn lemma_shows_spared(a: Tree, b: Tree, id: NodeId, e: ElementModel)
    requires
        shows(a, id, e),
        spared(a, b, id.0 as int),
    ensures
        shows(b, id, e),
    decreases e,
{
    assert(alike(a.nodes[id], b.nodes[id]));
    assert forall|i: int| 0 <= i < e.children.len() implies shows(b, b.nodes[id].children[i], #[trigger] e.children[i])
        by {
        let c = a.nodes[id].children[i];
        assert(shows(a, c, e.children[i]));
        assert(id.0 < c.0);
        assert(spared(a, b, c.0 as int));
        lemma_shows_spared(a, b, c, e.children[i]);
    }
}

proof fn lemma_bindings(d: DocModel, id: NodeId, bs: Seq<(Seq<char>, Seq<char>)>, n: int)
    requires
        sprouting(d),
        d.tree.nodes.dom().contains(id),
        0 <= n <= bs.len(),
    ensures
        ({
            let r = with_bindings(d, id, bs, n);
            let x = d.tree.nodes[id];
            &&& sprouting(r)
            &&& touched(d, r, id)
            &&& r.next_id == d.next_id
            &&& r.tree.nodes[id] == (NodeModel { bindings: poured(x.bindings, bs.take(n)), ..x })
        }),
    decreases n,
{
    if n > 0 {
        lemma_bindings(d, id, bs, n - 1);
        let m = with_bindings(d, id, bs, n - 1);
        lemma_binding_exact(m, id, bs[n - 1].0, bs[n - 1].1);
        assert(bs.take(n).drop_last() =~= bs.take(n - 1));
    } else {
        assert(bs.take(0) =~= Seq::<(Seq<char>, Seq<char>)>::empty());
    }
}

proof fn lemma_entries(d: DocModel, id: NodeId, ps: Seq<PropModel>, n: int)
    requires
        sprouting(d),
        d.tree.nodes.dom().contains(id),
        0 <= n <= ps.len(),
    ensures
        ({
            let r = with_entries(d, id, ps, n);
            let x = d.tree.nodes[id];
            &&& sprouting(r)
            &&& touched(d, r, id)
            &&& r.next_id == d.next_id
            &&& r.tree.nodes[id] == (NodeModel {
                props: poured(x.props, literals(ps.take(n))),
                bindings: poured(x.bindings, bound(ps.take(n))),
                ..x
            })
        }),
    decreases n,
{
    let x = d.tree.nodes[id];
    if n > 0 {
        lemma_entries(d, id, ps, n - 1);
        let m = with_entries(d, id, ps, n - 1);
        let p = ps[n - 1];
        assert(ps.take(n).drop_last() =~= ps.take(n - 1));
        assert(ps.take(n).last() == p);
        match p.value {
            PropValueModel::Literal(v) => {
                lemma_prop_exact(m, id, p.key, v);
                let before = literals(ps.take(n - 1));
                assert(before.push((p.key, v)).drop_last() =~= before);
            },
            PropValueModel::Binding(b) => {
                lemma_binding_exact(m, id, p.key, b);
                let before = bound(ps.take(n - 1));
                assert(before.push((p.key, b)).drop_last() =~= before);
            },
        }
    } else {
        assert(ps.take(0) =~= Seq::<PropModel>::empty());
    }
}

proof fn lemma_handlers(d: DocModel, id: NodeId, cs: Seq<CallbackModel>, n: int)
    requires
        sprouting(d),
        d.tree.nodes.dom().contains(id),
        0 <= n <= cs.len(),
    ensures
        ({
            let r = with_handlers(d, id, cs, n);
            let x = d.tree.nodes[id];
            &&& sprouting(r)
            &&& touched(d, r, id)
            &&& r.next_id == d.next_id
            &&& r.tree.nodes[id] == (NodeModel { callbacks: poured(x.callbacks, handled(cs).take(n)), ..x })
        }),
    decreases n,
{
    if n > 0 {
        lemma_handlers(d, id, cs, n - 1);
        let m = with_handlers(d, id, cs, n - 1);
        let c = cs[n - 1];
        lemma_callback_exact(m, id, c.event, ActionModel { name: c.action, args: c.args });
        assert(handled(cs).take(n).drop_last() =~= handled(cs).take(n - 1));
    } else {
        assert(handled(cs).take(0) =~= Seq::<(Seq<char>, ActionModel)>::empty());
    }
}

proof fn lemma_lowered(e: ElementModel, d: DocModel)
    requires
        sprouting(d),
        d.next_id + elements_in(e) <= u64::MAX,
    ensures
        ({
            let r = lowered(e, d);
            let id = NodeId(d.next_id);
            &&& sprouting(r)
            &&& r.next_id == d.next_id + elements_in(e)
            &&& r.tree.root == d.tree.root
            &&& shows(r.tree, id, e)
            &&& r.tree.nodes[id].parent is None
            &&& forall|x: NodeId| #[trigger]
                d.tree.nodes.dom().contains(x) ==> r.tree.nodes.dom().contains(x) && r.tree.nodes[x]
                    == d.tree.nodes[x]
        }),
    decreases e, 0int,
{
    let id = NodeId(d.next_id);
    let d0 = created(d, e.kind);
    lemma_created_exact(d, e.kind);
    let d1 = with_bindings(d0, id, e.bindings, e.bindings.len() as int);
    lemma_bindings(d0, id, e.bindings, e.bindings.len() as int);
    let d2 = with_entries(d1, id, e.props, e.props.len() as int);
    lemma_entries(d1, id, e.props, e.props.len() as int);
    let d3 = with_handlers(d2, id, e.callbacks, e.callbacks.len() as int);
    lemma_handlers(d2, id, e.callbacks, e.callbacks.len() as int);
    assert(e.bindings.take(e.bindings.len() as int) =~= e.bindings);
    assert(e.props.take(e.props.len() as int) =~= e.props);
    assert(handled(e.callbacks).take(e.callbacks.len() as int) =~= handled(e.callbacks));
    lemma_lowered_all(e, e.children.len() as int, id, d3);
    let r = lowered(e, d);
    assert forall|x: NodeId| #[trigger] d.tree.nodes.dom().contains(x) implies r.tree.nodes.dom().contains(x)
        && r.tree.nodes[x] == d.tree.nodes[x] by {
        assert(d0.tree.nodes.dom().contains(x) && x != id);
        assert(d1.tree.nodes.dom().contains(x));
        assert(d2.tree.nodes.dom().contains(x));
        assert(d3.tree.nodes.dom().contains(x));
    }
}

proof fn lemma_lowered_all(e: ElementModel, n: int, id: NodeId, d: DocModel)
    requires
        0 <= n <= e.children.len(),
        sprouting(d),
        d.tree.nodes.dom().contains(id),
        d.next_id == id.0 + 1,
        id.0 + 1 + elements_in_all(e.children, n) <= u64::MAX,
        d.tree.nodes[id].children.len() == 0,
    ensures
        ({
            let r = lowered_all(e.children, n, id, d);
            let x = d.tree.nodes[id];
            let m = r.tree.nodes[id];
            &&& sprouting(r)
            &&& touched(d, r, id)
            &&& r.next_id == d.next_id + elements_in_all(e.children, n)
            &&& m == (NodeModel { children: m.children, ..x })
            &&& m.children.len() == n
            &&& forall|k: int| 0 <= k < n ==> id.0 < (#[trigger] m.children[k]).0
            &&& forall|k: int| 0 <= k < n ==> shows(r.tree, m.children[k], #[trigger] e.children[k])
        }),
    decreases e.children, n,
{
    if n > 0 {
        lemma_lowered_all(e, n - 1, id, d);
        let a = lowered_all(e.children, n - 1, id, d);
        let child = NodeId(a.next_id);
        lemma_lowered(e.children[n - 1], a);
        let b = lowered(e.children[n - 1], a);
        assert(b.tree.nodes[id] == a.tree.nodes[id]);
        lemma_hung_exact(b, id, child);
        let r = sys(b, MutationModel::AppendChild { parent: id, child });
        let kids = r.tree.nodes[id].children;
        assert(kids == a.tree.nodes[id].children.push(child));
        assert forall|k: int| 0 <= k < n implies id.0 < (#[trigger] kids[k]).0 by {
            if k < n - 1 {
                assert(kids[k] == a.tree.nodes[id].children[k]);
            }
        }
        assert forall|k: int| 0 <= k < n implies shows(r.tree, kids[k], #[trigger] e.children[k]) by {
            if k < n - 1 {
                let c = a.tree.nodes[id].children[k];
                assert(kids[k] == c);
                assert(id.0 < c.0);
                assert(shows(a.tree, c, e.children[k]));
                assert(spared(a.tree, r.tree, c.0 as int)) by {
                    assert forall|x: NodeId| #[trigger]
                        a.tree.nodes.dom().contains(x) && x.0 >= c.0 implies r.tree.nodes.dom().contains(x) && alike(
                        a.tree.nodes[x],
                        r.tree.nodes[x],
                    ) by {
                        assert(b.tree.nodes[x] == a.tree.nodes[x]);
                        if x != child {
                            assert(r.tree.nodes[x] == b.tree.nodes[x]);
                        }
                    }
                }
                lemma_shows_spared(a.tree, r.tree, c, e.children[k]);
            } else {
                assert(kids[k] == child);
                assert(spared(b.tree, r.tree, child.0 as int)) by {
                    assert forall|x: NodeId| #[trigger]
                        b.tree.nodes.dom().contains(x) && x.0 >= child.0 implies r.tree.nodes.dom().contains(x)
                        && alike(b.tree.nodes[x], r.tree.nodes[x]) by {
                        if x != child {
                            assert(r.tree.nodes[x] == b.tree.nodes[x]);
                        }
                    }
                }
                lemma_shows_spared(b.tree, r.tree, child, e.children[k]);
            }
        }
        assert forall|x: NodeId| #[trigger] d.tree.nodes.dom().contains(x) implies r.tree.nodes.dom().contains(x) && (x
            == id || r.tree.nodes[x] == d.tree.nodes[x]) by {
            assert(a.tree.nodes.dom().contains(x));
            assert(b.tree.nodes.dom().contains(x) && b.tree.nodes[x] == a.tree.nodes[x]);
            assert(x.0 < d.next_id);
            if x != id {
                assert(r.tree.nodes[x] == b.tree.nodes[x]);
            }
        }
    }
}

/// The document of an element shows the element and all in it, from its root on.
pub proof fn law_document_shows_the_element(e: ElementModel)
    requires
        elements_in(e) <= u64::MAX,
    ensures
        shows(document_of(e).tree, NodeId(0), e),
        document_of(e).tree.root == Some(NodeId(0)),
        document_of(e).next_id == elements_in(e),
{
    lemma_empty_sprouting();
    lemma_lowered(e, empty_doc());
    let d = lowered(e, empty_doc());
    assert(spared(d.tree, document_of(e).tree, 0));
    lemma_shows_spared(d.tree, document_of(e).tree, NodeId(0), e);
}

} // verus!
