//! What document the elements of a Slint source become.
use vstd::prelude::*;

use crate::expr_law::answer;
use crate::float::{FloatQuery, Unit};
use crate::grow_law::{
    alike, lemma_created_exact, lemma_hung_exact, lemma_poured, lemma_poured_one, lemma_prop_exact, poured, spared,
    touched,
};
use crate::ir::{empty_doc, DocModel, MutationModel, Tree};
use crate::lowering::{created, sys};
use crate::lowering_law::{lemma_empty_sprouting, lemma_set_sprouts, sprouting};
use crate::node::{NodeId, NodeModel};
use crate::place_law::said;
use crate::slint_import::{
    assembled, lowered, lowered_children, node_count, node_counts, node_prop, prop_value, with_props, SlintLiteral,
    SlintNode, SlintSource,
};
use crate::swiftui_law::rgba;
use crate::value::ValueModel;

verus! {

/// A property of a source becomes the one of the document that means the same, with dashes as
/// underscores, and its value becomes the value of the same content; a word for a colour is the
/// colour.
pub proof fn law_property_becomes_its_namesake(name: Seq<char>, v: SlintLiteral, fl: Unit)
    ensures
        name == "text"@ ==> node_prop(name) == "content"@,
        name == "font-size"@ ==> node_prop(name) == "size"@,
        name == "border-radius"@ ==> node_prop(name) == "corner_radius"@,
        name != "text"@ && name != "font-size"@ && name != "border-radius"@ ==> {
            &&& node_prop(name).len() == name.len()
            &&& forall|i: int| 0 <= i < name.len() && name[i] != '-' ==> #[trigger] node_prop(name)[i] == name[i]
            &&& forall|i: int| 0 <= i < name.len() && name[i] == '-' ==> #[trigger] node_prop(name)[i] == '_'
        },
        v matches SlintLiteral::Px(text) ==> prop_value(v, fl) == ValueModel::Px(
            said(fl, FloatQuery::Narrow { double: answer(fl, FloatQuery::Read { text }) }),
        ),
        v matches SlintLiteral::Float(text) ==> prop_value(v, fl) == ValueModel::Float(
            answer(fl, FloatQuery::Read { text }),
        ),
        v matches SlintLiteral::Color(c) ==> prop_value(v, fl) == ValueModel::Color(c),
        v matches SlintLiteral::Str(s) ==> prop_value(v, fl) == ValueModel::Text(s),
        v matches SlintLiteral::Bool(x) ==> prop_value(v, fl) == ValueModel::Bool(x),
        v matches SlintLiteral::Ident(s) ==> {
            let w = prop_value(v, fl);
            &&& s == "white"@ ==> (w matches ValueModel::Color(c) && c == rgba(255, 255, 255, 255))
            &&& s == "black"@ ==> (w matches ValueModel::Color(c) && c == rgba(0, 0, 0, 255))
            &&& s == "red"@ ==> (w matches ValueModel::Color(c) && c == rgba(255, 0, 0, 255))
            &&& s == "green"@ ==> (w matches ValueModel::Color(c) && c == rgba(0, 255, 0, 255))
            &&& s == "blue"@ ==> (w matches ValueModel::Color(c) && c == rgba(0, 0, 255, 255))
            &&& s == "transparent"@ ==> (w matches ValueModel::Color(c) && c == rgba(0, 0, 0, 0))
            &&& w is Color || w == ValueModel::Text(s)
        },
{
    reveal_strlit("text");
    reveal_strlit("font-size");
    reveal_strlit("border-radius");
    reveal_strlit("white");
    reveal_strlit("black");
    reveal_strlit("red");
    reveal_strlit("green");
    reveal_strlit("blue");
    reveal_strlit("transparent");
    assert("text"@.len() == 4 && "font-size"@.len() == 9 && "border-radius"@.len() == 13);
    assert("white"@.len() == 5 && "black"@.len() == 5 && "red"@.len() == 3 && "green"@.len() == 5);
    assert("blue"@.len() == 4 && "transparent"@.len() == 11);
    assert("white"@[0] == 'w' && "black"@[0] == 'b' && "green"@[0] == 'g');
}

/// The properties of an element as entries of a node.
pub open spec fn entries(props: Seq<(Seq<char>, SlintLiteral)>, fl: Unit) -> Seq<(Seq<char>, ValueModel)> {
    props.map_values(|p: (Seq<char>, SlintLiteral)| (node_prop(p.0), prop_value(p.1, fl)))
}

/// The elements that stand in an element: those of the component that it uses, then its own.
pub open spec fn inside(e: SlintNode, comps: Map<Seq<char>, SlintNode>) -> Seq<SlintNode> {
    if comps.dom().contains(e.kind) {
        comps[e.kind].children + e.children
    } else {
        e.children
    }
}

/// The node shows the element, with components expanded at most `n` levels deep: it is of its kind,
/// or a stack where it uses a component; it has the properties of the component and then its own,
/// and its children, younger than it, show what stands in the element, in order.
pub open spec fn shows(
    t: Tree,
    id: NodeId,
    e: SlintNode,
    comps: Map<Seq<char>, SlintNode>,
    n: nat,
    fl: Unit,
) -> bool
    decreases n,
{
    let x = t.nodes[id];
    let used = comps.dom().contains(e.kind);
    &&& n > 0
    &&& t.nodes.dom().contains(id)
    &&& x.kind == if used {
        "Stack"@
    } else {
        e.kind
    }
    &&& x.props == poured(
        if used {
            poured(Map::empty(), entries(comps[e.kind].props, fl))
        } else {
            Map::empty()
        },
        entries(e.props, fl),
    )
    &&& x.children.len() == inside(e, comps).len()
    &&& forall|i: int| 0 <= i < inside(e, comps).len() ==> id.0 < (#[trigger] x.children[i]).0
    &&& forall|i: int|
        0 <= i < inside(e, comps).len() ==> shows(
            t,
            x.children[i],
            #[trigger] inside(e, comps)[i],
            comps,
            (n - 1) as nat,
            fl,
        )
}

proof fn lemma_shows_spared(
    a: Tree,
    b: Tree,
    id: NodeId,
    e: SlintNode,
    comps: Map<Seq<char>, SlintNode>,
    n: nat,
    fl: Unit,
)
    requires
        shows(a, id, e, comps, n, fl),
        spared(a, b, id.0 as int),
    ensures
        shows(b, id, e, comps, n, fl),
    decreases n,
{
    assert(alike(a.nodes[id], b.nodes[id]));
    let kids = inside(e, comps);
    assert forall|i: int| 0 <= i < kids.len() implies shows(
        b,
        b.nodes[id].children[i],
        #[trigger] kids[i],
        comps,
        (n - 1) as nat,
        fl,
    ) by {
        let c = a.nodes[id].children[i];
        assert(shows(a, c, kids[i], comps, (n - 1) as nat, fl));
        assert(id.0 < c.0);
        assert(spared(a, b, c.0 as int));
        lemma_shows_spared(a, b, c, kids[i], comps, (n - 1) as nat, fl);
    }
}

proof fn lemma_props(id: NodeId, props: Seq<(Seq<char>, SlintLiteral)>, i: int, d: DocModel, fl: Unit)
    requires
        sprouting(d),
        d.tree.nodes.dom().contains(id),
        0 <= i <= props.len(),
    ensures
        ({
            let r = with_props(id, props, i, d, fl);
            let x = d.tree.nodes[id];
            &&& sprouting(r)
            &&& touched(d, r, id)
            &&& r.next_id == d.next_id
            &&& r.tree.nodes[id] == (NodeModel { props: poured(x.props, entries(props, fl).skip(i)), ..x })
        }),
    decreases props.len() - i,
{
    let x = d.tree.nodes[id];
    let all = entries(props, fl);
    if i < props.len() {
        let (key, value) = all[i];
        lemma_prop_exact(d, id, key, value);
        lemma_poured_one(x.props, key, value);
        let d1 = sys(d, MutationModel::SetProp { id, key, value });
        lemma_props(id, props, i + 1, d1, fl);
        lemma_poured(x.props, seq![all[i]], all.skip(i + 1));
        assert(seq![all[i]] + all.skip(i + 1) =~= all.skip(i));
    } else {
        assert(all.skip(i) =~= Seq::<(Seq<char>, ValueModel)>::empty());
    }
}

proof fn lemma_lowered(e: SlintNode, comps: Map<Seq<char>, SlintNode>, n: nat, d: DocModel, fl: Unit)
    requires
        sprouting(d),
        crate::slint_import::settles(e, comps, n),
        d.next_id + node_count(e, comps, n) <= u64::MAX,
    ensures
        ({
            let r = lowered(e, comps, n, d, fl);
            let id = NodeId(d.next_id);
            &&& sprouting(r)
            &&& r.next_id == d.next_id + node_count(e, comps, n)
            &&& r.tree.root == d.tree.root
            &&& shows(r.tree, id, e, comps, n, fl)
            &&& r.tree.nodes[id].parent is None
            &&& forall|x: NodeId| #[trigger]
                d.tree.nodes.dom().contains(x) ==> r.tree.nodes.dom().contains(x) && r.tree.nodes[x]
                    == d.tree.nodes[x]
        }),
    decreases n, 0nat,
{
    let id = NodeId(d.next_id);
    let used = comps.dom().contains(e.kind);
    let comp = comps[e.kind];
    let kind = if used {
        "Stack"@
    } else {
        e.kind
    };
    let d1 = created(d, kind);
    lemma_created_exact(d, kind);
    let d2 = if used {
        lemma_props(id, comp.props, 0, d1, fl);
        with_props(id, comp.props, 0, d1, fl)
    } else {
        d1
    };
    let d3 = with_props(id, e.props, 0, d2, fl);
    lemma_props(id, e.props, 0, d2, fl);
    assert(entries(comp.props, fl).skip(0) =~= entries(comp.props, fl));
    assert(entries(e.props, fl).skip(0) =~= entries(e.props, fl));
    let none = Seq::<SlintNode>::empty();
    assert(d3.tree.nodes[id].children =~= Seq::<NodeId>::empty());
    let d4 = if used {
        lemma_children(comp.children, 0, id, comps, (n - 1) as nat, d3, fl, none);
        assert(none + comp.children.skip(0) =~= comp.children);
        lowered_children(comp.children, 0, id, comps, (n - 1) as nat, d3, fl)
    } else {
        d3
    };
    let done = if used {
        comp.children
    } else {
        none
    };
    lemma_children(e.children, 0, id, comps, (n - 1) as nat, d4, fl, done);
    assert(done + e.children.skip(0) =~= inside(e, comps));
    let r = lowered(e, comps, n, d, fl);
    assert forall|x: NodeId| #[trigger] d.tree.nodes.dom().contains(x) implies r.tree.nodes.dom().contains(x)
        && r.tree.nodes[x] == d.tree.nodes[x] by {
        assert(d1.tree.nodes.dom().contains(x) && x != id);
        assert(d2.tree.nodes.dom().contains(x));
        assert(d3.tree.nodes.dom().contains(x));
        assert(d4.tree.nodes.dom().contains(x));
    }
}

proof fn lemma_children(
    s: Seq<SlintNode>,
    i: int,
    id: NodeId,
    comps: Map<Seq<char>, SlintNode>,
    n: nat,
    d: DocModel,
    fl: Unit,
    done: Seq<SlintNode>,
)
    requires
        0 <= i <= s.len(),
        sprouting(d),
        forall|k: int| 0 <= k < s.len() ==> crate::slint_import::settles(#[trigger] s[k], comps, n),
        d.tree.nodes.dom().contains(id),
        id.0 < d.next_id,
        d.next_id + node_counts(s, i, comps, n) <= u64::MAX,
        d.tree.nodes[id].children.len() == done.len(),
        forall|k: int| 0 <= k < done.len() ==> id.0 < (#[trigger] d.tree.nodes[id].children[k]).0,
        forall|k: int|
            0 <= k < done.len() ==> shows(d.tree, d.tree.nodes[id].children[k], #[trigger] done[k], comps, n, fl),
    ensures
        ({
            let r = lowered_children(s, i, id, comps, n, d, fl);
            let x = d.tree.nodes[id];
            let m = r.tree.nodes[id];
            let all = done + s.skip(i);
            &&& sprouting(r)
            &&& touched(d, r, id)
            &&& r.next_id == d.next_id + node_counts(s, i, comps, n)
            &&& m == (NodeModel { children: m.children, ..x })
            &&& m.children.len() == all.len()
            &&& forall|k: int| 0 <= k < all.len() ==> id.0 < (#[trigger] m.children[k]).0
            &&& forall|k: int| 0 <= k < all.len() ==> shows(r.tree, m.children[k], #[trigger] all[k], comps, n, fl)
        }),
    decreases n, (if i < s.len() { s.len() - i + 1 } else { 1 }) as nat,
{
    if i < s.len() {
        let child = NodeId(d.next_id);
        lemma_lowered(s[i], comps, n, d, fl);
        let d1 = lowered(s[i], comps, n, d, fl);
        assert(d1.tree.nodes[id] == d.tree.nodes[id]);
        lemma_hung_exact(d1, id, child);
        let d2 = sys(d1, MutationModel::AppendChild { parent: id, child });
        let kids = d2.tree.nodes[id].children;
        assert(kids == d.tree.nodes[id].children.push(child));
        let more = done.push(s[i]);
        assert forall|k: int| 0 <= k < more.len() implies id.0 < (#[trigger] kids[k]).0 by {
            if k < done.len() {
                assert(kids[k] == d.tree.nodes[id].children[k]);
            }
        }
        assert forall|k: int| 0 <= k < more.len() implies shows(d2.tree, kids[k], #[trigger] more[k], comps, n, fl)
            by {
            if k < done.len() {
                let c = d.tree.nodes[id].children[k];
                assert(kids[k] == c);
                assert(id.0 < c.0);
                assert(shows(d.tree, c, done[k], comps, n, fl));
                assert(spared(d.tree, d2.tree, c.0 as int)) by {
                    assert forall|x: NodeId| #[trigger]
                        d.tree.nodes.dom().contains(x) && x.0 >= c.0 implies d2.tree.nodes.dom().contains(x)
                        && alike(d.tree.nodes[x], d2.tree.nodes[x]) by {
                        assert(d1.tree.nodes[x] == d.tree.nodes[x]);
                        if x != child {
                            assert(d2.tree.nodes[x] == d1.tree.nodes[x]);
                        }
                    }
                }
                lemma_shows_spared(d.tree, d2.tree, c, done[k], comps, n, fl);
            } else {
                assert(kids[k] == child);
                assert(spared(d1.tree, d2.tree, child.0 as int)) by {
                    assert forall|x: NodeId| #[trigger]
                        d1.tree.nodes.dom().contains(x) && x.0 >= child.0 implies d2.tree.nodes.dom().contains(x)
                        && alike(d1.tree.nodes[x], d2.tree.nodes[x]) by {
                        if x != child {
                            assert(d2.tree.nodes[x] == d1.tree.nodes[x]);
                        }
                    }
                }
                lemma_shows_spared(d1.tree, d2.tree, child, s[i], comps, n, fl);
            }
        }
        lemma_children(s, i + 1, id, comps, n, d2, fl, more);
        assert(more + s.skip(i + 1) =~= done + s.skip(i));
        let r = lowered_children(s, i + 1, id, comps, n, d2, fl);
        assert forall|x: NodeId| #[trigger] d.tree.nodes.dom().contains(x) implies r.tree.nodes.dom().contains(x) && (x
            == id || r.tree.nodes[x] == d.tree.nodes[x]) by {
            assert(d1.tree.nodes.dom().contains(x) && d1.tree.nodes[x] == d.tree.nodes[x]);
            assert(d2.tree.nodes.dom().contains(x));
            if x != id {
                assert(d2.tree.nodes[x] == d1.tree.nodes[x]);
            }
        }
    } else {
        assert(done + s.skip(i) =~= done);
    }
}

/// An element becomes one node that shows it, with its component, and all that stands in it; what
/// was there before stays as it was.
pub proof fn law_element_becomes_its_node(e: SlintNode, comps: Map<Seq<char>, SlintNode>, n: nat, d: DocModel, fl: Unit)
    requires
        sprouting(d),
        crate::slint_import::settles(e, comps, n),
        d.next_id + node_count(e, comps, n) <= u64::MAX,
    ensures
        ({
            let r = lowered(e, comps, n, d, fl);
            &&& shows(r.tree, NodeId(d.next_id), e, comps, n, fl)
            &&& r.next_id == d.next_id + node_count(e, comps, n)
            &&& forall|x: NodeId| #[trigger]
                d.tree.nodes.dom().contains(x) ==> r.tree.nodes.dom().contains(x) && r.tree.nodes[x]
                    == d.tree.nodes[x]
        }),
{
    lemma_lowered(e, comps, n, d, fl);
}

/// How many nodes the first `i` elements of a source become.
pub open spec fn before(f: SlintSource, i: int, n: nat) -> nat
    decreases i,
{
    if i <= 0 {
        0
    } else {
        before(f, i - 1, n) + node_count(f.elements[i - 1], f.components, n)
    }
}

proof fn lemma_before(f: SlintSource, i: int, j: int, n: nat)
    requires
        0 <= i <= j,
    ensures
        before(f, i, n) <= before(f, j, n),
    decreases j,
{
    if i < j {
        lemma_before(f, i, j - 1, n);
    }
}

proof fn lemma_assembled(f: SlintSource, i: int, n: nat, d: DocModel, fl: Unit)
    requires
        sprouting(d),
        crate::slint_import::fits(f, n),
        0 <= i <= f.elements.len(),
        d.next_id == before(f, i, n),
        before(f, f.elements.len() as int, n) <= u64::MAX,
        forall|k: int|
            0 <= k < i ==> shows(
                d.tree,
                NodeId(before(f, k, n) as u64),
                #[trigger] f.elements[k],
                f.components,
                n,
                fl,
            ),
        d.tree.root == (if i > 0 {
            Some(NodeId(0))
        } else {
            None
        }),
    ensures
        ({
            let r = assembled(f, i, n, d, fl);
            &&& forall|k: int|
                0 <= k < f.elements.len() ==> shows(
                    r.tree,
                    NodeId(before(f, k, n) as u64),
                    #[trigger] f.elements[k],
                    f.components,
                    n,
                    fl,
                )
            &&& r.tree.root == (if f.elements.len() > 0 {
                Some(NodeId(0))
            } else {
                None
            })
        }),
    decreases f.elements.len() - i,
{
    if i < f.elements.len() {
        lemma_before(f, i + 1, f.elements.len() as int, n);
        lemma_lowered(f.elements[i], f.components, n, d, fl);
        let d1 = lowered(f.elements[i], f.components, n, d, fl);
        let id = NodeId(d.next_id);
        let d2 = if i == 0 {
            sys(d1, MutationModel::SetRoot { id })
        } else {
            d1
        };
        lemma_set_sprouts(d1, MutationModel::SetRoot { id });
        assert(d2.tree.nodes == d1.tree.nodes);
        assert forall|k: int| 0 <= k < i + 1 implies shows(
            d2.tree,
            NodeId(before(f, k, n) as u64),
            #[trigger] f.elements[k],
            f.components,
            n,
            fl,
        ) by {
            let x = NodeId(before(f, k, n) as u64);
            if k < i {
                assert(shows(d.tree, x, f.elements[k], f.components, n, fl));
                assert(spared(d.tree, d2.tree, x.0 as int));
                lemma_shows_spared(d.tree, d2.tree, x, f.elements[k], f.components, n, fl);
            } else {
                assert(spared(d1.tree, d2.tree, x.0 as int));
                lemma_shows_spared(d1.tree, d2.tree, x, f.elements[k], f.components, n, fl);
            }
        }
        lemma_assembled(f, i + 1, n, d2, fl);
    }
}

/// The document of a source shows every element of it, and the first is the root.
pub proof fn law_document_shows_every_element(f: SlintSource, k: int, n: nat, fl: Unit)
    requires
        crate::slint_import::fits(f, n),
        before(f, f.elements.len() as int, n) <= u64::MAX,
        0 <= k < f.elements.len(),
    ensures
        ({
            let t = assembled(f, 0, n, empty_doc(), fl).tree;
            &&& shows(t, NodeId(before(f, k, n) as u64), f.elements[k], f.components, n, fl)
            &&& t.root == Some(NodeId(0))
        }),
{
    lemma_empty_sprouting();
    lemma_assembled(f, 0, n, empty_doc(), fl);
}

} // verus!
