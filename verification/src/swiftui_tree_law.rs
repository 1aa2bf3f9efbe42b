//! What document the views of a SwiftUI source become.
use vstd::prelude::*;

use crate::expr_law::answer;
use crate::float::{FloatQuery, Unit};
use crate::grow_law::{
    alike, lemma_callback_exact, lemma_created_exact, lemma_hung_exact, lemma_poured, lemma_poured_one,
    lemma_prop_exact, poured, spared, touched,
};
use crate::ir::{empty_doc, DocModel, MutationModel, Tree};
use crate::lowering::{created, sys};
use crate::lowering_law::{lemma_empty_sprouting, sprouting};
use crate::node::NodeId;
use crate::place_law::said;
use crate::swiftui_import::{
    assembled, component, lowered, lowered_children, node_kind, node_prop, packed, prop_value, view_count,
    view_counts, with_callbacks, with_props, Omission, SwiftNode, SwiftNumber, SwiftTerm,
};
use crate::swiftui_law::rgba;
use crate::value::{ActionModel, ValueModel};

verus! {

/// The double that a number stands for.
pub open spec fn amount(n: SwiftNumber, fl: Unit) -> u64 {
    match n {
        SwiftNumber::Text(text) => answer(fl, FloatQuery::Read { text }),
        SwiftNumber::Single(single) => answer(fl, FloatQuery::Widen { single }),
        SwiftNumber::One => 0x3FF0_0000_0000_0000,
    }
}

/// The property is a length.
pub open spec fn measured(key: Seq<char>) -> bool {
    ||| key == "width"@
    ||| key == "height"@
    ||| key == "size"@
    ||| key == "padding"@
    ||| key == "corner_radius"@
    ||| key == "opacity"@
}

/// The value `w` is what a value in the source becomes as a property.
pub open spec fn becomes(key: Seq<char>, t: SwiftTerm, w: ValueModel, fl: Unit) -> bool {
    match t {
        SwiftTerm::Str(s) => w == ValueModel::Text(s),
        SwiftTerm::Ident(s) => w == ValueModel::Text(s),
        SwiftTerm::Bool(x) => w == ValueModel::Bool(x),
        SwiftTerm::Color(c) => w == ValueModel::Color(c),
        SwiftTerm::FontRole(px) => w == ValueModel::Px(px),
        SwiftTerm::Float(n) => if measured(key) {
            w == ValueModel::Px(said(fl, FloatQuery::Narrow { double: amount(n, fl) }))
        } else {
            w == ValueModel::Float(amount(n, fl))
        },
        SwiftTerm::Rgb(r, g, b) => w matches ValueModel::Color(c) && (component(r, fl) <= 255 && component(g, fl)
            <= 255 && component(b, fl) <= 255 ==> c == rgba(
            component(r, fl) as int,
            component(g, fl) as int,
            component(b, fl) as int,
            255,
        )),
        SwiftTerm::Range(_, _) => w is List,
    }
}

proof fn lemma_packed(r: u32, g: u32, b: u32)
    requires
        r <= 255 && g <= 255 && b <= 255,
    ensures
        packed(r, g, b) == rgba(r as int, g as int, b as int, 255),
{
    assert(((r << 24u32) | (g << 16u32) | (b << 8u32) | 0xFFu32) == r * 0x100_0000 + g * 0x1_0000 + b * 0x100 + 255)
        by (bit_vector)
        requires
            r <= 255 && g <= 255 && b <= 255,
    ;
}

/// A value in the source becomes the property value of the same content: texts and words become
/// texts, numbers become lengths under the names of lengths and doubles under others, and red,
/// green and blue are packed into one opaque colour.
pub proof fn law_value_becomes_its_content(key: Seq<char>, t: SwiftTerm, fl: Unit)
    ensures
        becomes(key, t, prop_value(key, t, fl), fl),
{
    if let SwiftTerm::Rgb(r, g, b) = t {
        if component(r, fl) <= 255 && component(g, fl) <= 255 && component(b, fl) <= 255 {
            lemma_packed(component(r, fl), component(g, fl), component(b, fl));
        }
    }
}

/// The name under which a property is kept: what an image shows is its content.
pub open spec fn kept_as(kind: Seq<char>, key: Seq<char>) -> Seq<char> {
    if kind == "Image"@ && (key == "systemName"@ || key == "name"@) {
        "content"@
    } else {
        key
    }
}

/// What one argument or modifier puts on a node; a range puts both its ends.
pub open spec fn puts(kind: Seq<char>, key: Seq<char>, t: SwiftTerm, fl: Unit) -> Seq<(Seq<char>, ValueModel)> {
    match t {
        SwiftTerm::Range(lo, hi) => seq![
            ("range_min"@, ValueModel::Float(answer(fl, FloatQuery::Read { text: lo }))),
            ("range_max"@, ValueModel::Float(answer(fl, FloatQuery::Read { text: hi }))),
        ],
        _ => seq![(kept_as(kind, key), prop_value(kept_as(kind, key), t, fl))],
    }
}

/// What the properties from the `i`-th on put on a node.
pub open spec fn puts_from(v: SwiftNode, i: int, fl: Unit) -> Seq<(Seq<char>, ValueModel)>
    decreases v.props.len() - i,
{
    if i < 0 || i >= v.props.len() {
        Seq::empty()
    } else {
        puts(v.kind, v.props[i].0, v.props[i].1, fl) + puts_from(v, i + 1, fl)
    }
}

/// Everything that a view puts on its node: its label as the content, then its properties.
pub open spec fn entries(v: SwiftNode, fl: Unit) -> Seq<(Seq<char>, ValueModel)> {
    (match v.label {
        Some(s) => seq![("content"@, ValueModel::Text(s))],
        None => Seq::empty(),
    }) + puts_from(v, 0, fl)
}

/// The kind of node that shows a view.
pub open spec fn shown_by(kind: Seq<char>, shown: Seq<char>) -> bool {
    &&& kind == "VStack"@ ==> shown == "Column"@
    &&& kind == "HStack"@ ==> shown == "Row"@
    &&& kind == "ZStack"@ || kind == "Group"@ || kind == "ScrollView"@ ==> shown == "Stack"@
    &&& kind == "Rectangle"@ || kind == "RoundedRectangle"@ || kind == "Spacer"@ ==> shown == "Rect"@
    &&& kind == "Text"@ || kind == "Button"@ || kind == "Image"@ || kind == "Toggle"@ || kind == "Slider"@ ==> shown
        == kind
}

proof fn lemma_kinds(kind: Seq<char>)
    ensures
        shown_by(kind, node_kind(kind)),
{
    reveal_strlit("VStack");
    reveal_strlit("HStack");
    reveal_strlit("ZStack");
    reveal_strlit("Group");
    reveal_strlit("ScrollView");
    reveal_strlit("RoundedRectangle");
    reveal_strlit("Rectangle");
    reveal_strlit("Spacer");
    reveal_strlit("Text");
    reveal_strlit("Button");
    reveal_strlit("Image");
    reveal_strlit("Toggle");
    reveal_strlit("Slider");
    assert("VStack"@[0] == 'V' && "HStack"@[0] == 'H' && "ZStack"@[0] == 'Z');
    assert("Group"@[0] == 'G' && "ScrollView"@.len() == 10 && "RoundedRectangle"@.len() == 16);
    assert("Rectangle"@[0] == 'R' && "Rectangle"@.len() == 9);
    assert("Spacer"@[0] == 'S' && "Spacer"@.len() == 6 && "Spacer"@[1] == 'p');
    assert("Text"@.len() == 4 && "Button"@[0] == 'B' && "Image"@[0] == 'I');
    assert("Toggle"@[0] == 'T' && "Slider"@[1] == 'l' && "Slider"@.len() == 6);
    assert("Group"@.len() == 5 && "VStack"@.len() == 6 && "HStack"@.len() == 6 && "ZStack"@.len() == 6);
    assert("Slider"@[0] == 'S');
}

/// The node shows the view: it is of the kind for it, has what the view puts on it and nothing
/// else, answers each of its callbacks with its action, and its children, younger than it, show
/// the children of the view in their order.
pub open spec fn shows(t: Tree, id: NodeId, v: SwiftNode, fl: Unit) -> bool
    decreases v,
{
    let n = t.nodes[id];
    &&& t.nodes.dom().contains(id)
    &&& n.kind == node_kind(v.kind)
    &&& shown_by(v.kind, n.kind)
    &&& n.props == poured(Map::empty(), entries(v, fl))
    &&& n.bindings == Map::<Seq<char>, Seq<char>>::empty()
    &&& forall|e: Seq<char>| #[trigger] n.callbacks.dom().contains(e) <==> v.callbacks.contains(e)
    &&& forall|e: Seq<char>| #[trigger]
        n.callbacks.dom().contains(e) ==> n.callbacks[e] == (ActionModel {
            name: "action"@,
            args: Seq::empty(),
        })
    &&& n.children.len() == v.children.len()
    &&& forall|i: int| 0 <= i < v.children.len() ==> id.0 < (#[trigger] n.children[i]).0
    &&& forall|i: int| 0 <= i < v.children.len() ==> shows(t, n.children[i], #[trigger] v.children[i], fl)
}

proof fn lemma_shows_spared(a: Tree, b: Tree, id: NodeId, v: SwiftNode, fl: Unit)
    requires
        shows(a, id, v, fl),
        spared(a, b, id.0 as int),
    ensures
        shows(b, id, v, fl),
    decreases v,
{
    assert(alike(a.nodes[id], b.nodes[id]));
    assert forall|i: int| 0 <= i < v.children.len() implies shows(
        b,
        b.nodes[id].children[i],
        #[trigger] v.children[i],
        fl,
    ) by {
        let c = a.nodes[id].children[i];
        assert(shows(a, c, v.children[i], fl));
        assert(id.0 < c.0);
        assert(spared(a, b, c.0 as int));
        lemma_shows_spared(a, b, c, v.children[i], fl);
    }
}

proof fn lemma_props(v: SwiftNode, id: NodeId, i: int, d: DocModel, fl: Unit)
    requires
        sprouting(d),
        d.tree.nodes.dom().contains(id),
        0 <= i,
    ensures
        ({
            let r = with_props(v, id, i, d, fl);
            let n = d.tree.nodes[id];
            &&& sprouting(r)
            &&& touched(d, r, id)
            &&& r.next_id == d.next_id
            &&& r.tree.nodes[id] == (crate::node::NodeModel { props: poured(n.props, puts_from(v, i, fl)), ..n })
        }),
    decreases v.props.len() - i,
{
    let n = d.tree.nodes[id];
    if i < v.props.len() {
        let key = node_prop(v.kind, v.props[i].0);
        let t = v.props[i].1;
        let w = puts(v.kind, v.props[i].0, t, fl);
        let d1 = match t {
            SwiftTerm::Range(lo, hi) => {
                let x = ValueModel::Float(answer(fl, FloatQuery::Read { text: lo }));
                let y = ValueModel::Float(answer(fl, FloatQuery::Read { text: hi }));
                let m = sys(d, MutationModel::SetProp { id, key: "range_min"@, value: x });
                lemma_prop_exact(d, id, "range_min"@, x);
                lemma_prop_exact(m, id, "range_max"@, y);
                lemma_poured_one(n.props, "range_min"@, x);
                lemma_poured_one(n.props.insert("range_min"@, x), "range_max"@, y);
                lemma_poured(n.props, seq![("range_min"@, x)], seq![("range_max"@, y)]);
                assert(seq![("range_min"@, x)] + seq![("range_max"@, y)] =~= w);
                sys(m, MutationModel::SetProp { id, key: "range_max"@, value: y })
            },
            _ => {
                let value = prop_value(key, t, fl);
                lemma_prop_exact(d, id, key, value);
                lemma_poured_one(n.props, key, value);
                sys(d, MutationModel::SetProp { id, key, value })
            },
        };
        assert(d1.tree.nodes[id].props == poured(n.props, w));
        lemma_props(v, id, i + 1, d1, fl);
        lemma_poured(n.props, w, puts_from(v, i + 1, fl));
    }
}

proof fn lemma_callbacks(v: SwiftNode, id: NodeId, i: int, d: DocModel)
    requires
        sprouting(d),
        d.tree.nodes.dom().contains(id),
        0 <= i <= v.callbacks.len(),
        forall|e: Seq<char>| #[trigger]
            d.tree.nodes[id].callbacks.dom().contains(e) <==> v.callbacks.take(i).contains(e),
        forall|e: Seq<char>| #[trigger]
            d.tree.nodes[id].callbacks.dom().contains(e) ==> d.tree.nodes[id].callbacks[e] == (ActionModel {
                name: "action"@,
                args: Seq::empty(),
            }),
    ensures
        ({
            let r = with_callbacks(v, id, i, d);
            let n = d.tree.nodes[id];
            let m = r.tree.nodes[id];
            &&& sprouting(r)
            &&& touched(d, r, id)
            &&& r.next_id == d.next_id
            &&& m == (crate::node::NodeModel { callbacks: m.callbacks, ..n })
            &&& forall|e: Seq<char>| #[trigger] m.callbacks.dom().contains(e) <==> v.callbacks.contains(e)
            &&& forall|e: Seq<char>| #[trigger]
                m.callbacks.dom().contains(e) ==> m.callbacks[e] == (ActionModel {
                    name: "action"@,
                    args: Seq::empty(),
                })
        }),
    decreases v.callbacks.len() - i,
{
    if i < v.callbacks.len() {
        let action = ActionModel { name: "action"@, args: Seq::empty() };
        let event = v.callbacks[i];
        lemma_callback_exact(d, id, event, action);
        let d1 = sys(d, MutationModel::SetCallback { id, event, action });
        let before = v.callbacks.take(i);
        assert(v.callbacks.take(i + 1) =~= before.push(event));
        assert forall|e: Seq<char>| #[trigger]
            d1.tree.nodes[id].callbacks.dom().contains(e) <==> v.callbacks.take(i + 1).contains(e) by {
            if before.contains(e) {
                let k = before.index_of(e);
                assert(before.push(event)[k] == e);
            }
            assert(before.push(event)[i] == event);
            if before.push(event).contains(e) && e != event {
                let k = before.push(event).index_of(e);
                assert(before[k] == e);
            }
        }
        lemma_callbacks(v, id, i + 1, d1);
    } else {
        assert(v.callbacks.take(i) =~= v.callbacks);
    }
}

/// The omissions of a view and then those of its children, in their order.
pub open spec fn all_omitted(v: SwiftNode) -> Seq<Omission>
    decreases v, v.children.len() + 1,
{
    v.unsupported + omitted_from(v, 0)
}

/// The omissions of the children from the `i`-th on.
pub open spec fn omitted_from(v: SwiftNode, i: int) -> Seq<Omission>
    decreases v, v.children.len() - i,
{
    if i < 0 || i >= v.children.len() {
        Seq::empty()
    } else {
        all_omitted(v.children[i]) + omitted_from(v, i + 1)
    }
}

proof fn lemma_counts(s: Seq<SwiftNode>, i: int)
    requires
        0 <= i < s.len(),
    ensures
        view_counts(s.take(i + 1)) == view_counts(s.take(i)) + view_count(s[i]),
{
    assert(s.take(i + 1).drop_last() =~= s.take(i));
}

proof fn lemma_counts_grow(s: Seq<SwiftNode>, i: int)
    requires
        0 <= i <= s.len(),
    ensures
        view_counts(s.take(i)) <= view_counts(s),
    decreases s.len() - i,
{
    if i < s.len() {
        lemma_counts(s, i);
        lemma_counts_grow(s, i + 1);
    } else {
        assert(s.take(i) =~= s);
    }
}

/// The nodes of the earlier document are in the later one as they were.
spec fn added(a: DocModel, b: DocModel) -> bool {
    &&& a.next_id <= b.next_id
    &&& a.tree.root == b.tree.root
    &&& forall|x: NodeId| #[trigger]
        a.tree.nodes.dom().contains(x) ==> b.tree.nodes.dom().contains(x) && b.tree.nodes[x] == a.tree.nodes[x]
}

proof fn lemma_lowered(v: SwiftNode, d: DocModel, un: Seq<Omission>, fl: Unit)
    requires
        sprouting(d),
        d.next_id + view_count(v) <= u64::MAX,
    ensures
        ({
            let (r, out) = lowered(v, d, un, fl);
            let id = NodeId(d.next_id);
            &&& sprouting(r)
            &&& added(d, r)
            &&& r.next_id == d.next_id + view_count(v)
            &&& shows(r.tree, id, v, fl)
            &&& r.tree.nodes[id].parent is None
            &&& out == un + all_omitted(v)
        }),
    decreases v, v.children.len() + 1,
{
    let id = NodeId(d.next_id);
    let d1 = created(d, node_kind(v.kind));
    lemma_created_exact(d, node_kind(v.kind));
    lemma_kinds(v.kind);
    let nothing = Map::<Seq<char>, ValueModel>::empty();
    let first: Seq<(Seq<char>, ValueModel)> = match v.label {
        Some(s) => seq![("content"@, ValueModel::Text(s))],
        None => Seq::empty(),
    };
    let d2 = match v.label {
        Some(s) => {
            lemma_prop_exact(d1, id, "content"@, ValueModel::Text(s));
            lemma_poured_one(nothing, "content"@, ValueModel::Text(s));
            sys(d1, MutationModel::SetProp { id, key: "content"@, value: ValueModel::Text(s) })
        },
        None => d1,
    };
    assert(d2.tree.nodes[id].props == poured(nothing, first));
    lemma_props(v, id, 0, d2, fl);
    lemma_poured(nothing, first, puts_from(v, 0, fl));
    let d3 = with_props(v, id, 0, d2, fl);
    assert(v.callbacks.take(0) =~= Seq::<Seq<char>>::empty());
    lemma_callbacks(v, id, 0, d3);
    let d4 = with_callbacks(v, id, 0, d3);
    assert(v.children.take(0) =~= Seq::<SwiftNode>::empty());
    assert(d4.tree.nodes[id].children =~= Seq::<NodeId>::empty());
    lemma_lowered_children(v, id, 0, d4, un + v.unsupported, fl);
    let (r, out) = lowered_children(v, id, 0, d4, un + v.unsupported, fl);
    assert(un + v.unsupported + omitted_from(v, 0) =~= un + all_omitted(v));
    assert(v.children.take(v.children.len() as int) =~= v.children);
    assert forall|x: NodeId| #[trigger] d.tree.nodes.dom().contains(x) implies r.tree.nodes.dom().contains(x)
        && r.tree.nodes[x] == d.tree.nodes[x] by {
        assert(d1.tree.nodes.dom().contains(x) && x != id);
        assert(d2.tree.nodes.dom().contains(x));
        assert(d3.tree.nodes.dom().contains(x));
        assert(d4.tree.nodes.dom().contains(x));
    }
}

proof fn lemma_lowered_children(v: SwiftNode, id: NodeId, i: int, d: DocModel, un: Seq<Omission>, fl: Unit)
    requires
        sprouting(d),
        0 <= i <= v.children.len(),
        d.tree.nodes.dom().contains(id),
        id.0 < d.next_id,
        d.next_id == id.0 + 1 + view_counts(v.children.take(i)),
        id.0 + view_count(v) <= u64::MAX,
        d.tree.nodes[id].children.len() == i,
        forall|k: int| 0 <= k < i ==> id.0 < (#[trigger] d.tree.nodes[id].children[k]).0,
        forall|k: int| 0 <= k < i ==> shows(d.tree, d.tree.nodes[id].children[k], #[trigger] v.children[k], fl),
    ensures
        ({
            let (r, out) = lowered_children(v, id, i, d, un, fl);
            let n = d.tree.nodes[id];
            let m = r.tree.nodes[id];
            &&& sprouting(r)
            &&& touched(d, r, id)
            &&& r.next_id == id.0 + view_count(v)
            &&& m == (crate::node::NodeModel { children: m.children, ..n })
            &&& m.children.len() == v.children.len()
            &&& forall|k: int| 0 <= k < v.children.len() ==> id.0 < (#[trigger] m.children[k]).0
            &&& forall|k: int|
                0 <= k < v.children.len() ==> shows(r.tree, m.children[k], #[trigger] v.children[k], fl)
            &&& out == un + omitted_from(v, i)
        }),
    decreases v, v.children.len() - i,
{
    if i < v.children.len() {
        let child = NodeId(d.next_id);
        lemma_counts(v.children, i);
        lemma_counts_grow(v.children, i + 1);
        lemma_lowered(v.children[i], d, un, fl);
        let (d1, un1) = lowered(v.children[i], d, un, fl);
        lemma_hung_exact(d1, id, child);
        let d2 = sys(d1, MutationModel::AppendChild { parent: id, child });
        assert(d1.tree.nodes[id] == d.tree.nodes[id]);
        let kids = d2.tree.nodes[id].children;
        assert(kids == d.tree.nodes[id].children.push(child));
        assert forall|k: int| 0 <= k < i + 1 implies id.0 < (#[trigger] kids[k]).0 by {
            if k < i {
                assert(kids[k] == d.tree.nodes[id].children[k]);
            }
        }
        assert forall|k: int| 0 <= k < i + 1 implies shows(d2.tree, kids[k], #[trigger] v.children[k], fl) by {
            if k < i {
                let c = d.tree.nodes[id].children[k];
                assert(kids[k] == c);
                assert(id.0 < c.0);
                assert(shows(d.tree, c, v.children[k], fl));
                assert(spared(d.tree, d2.tree, c.0 as int)) by {
                    assert forall|x: NodeId| #[trigger]
                        d.tree.nodes.dom().contains(x) && x.0 >= c.0 implies d2.tree.nodes.dom().contains(x)
                        && alike(d.tree.nodes[x], d2.tree.nodes[x]) by {
                        assert(d1.tree.nodes[x] == d.tree.nodes[x]);
                        assert(x != id);
                        if x != child {
                            assert(d2.tree.nodes[x] == d1.tree.nodes[x]);
                        }
                    }
                }
                lemma_shows_spared(d.tree, d2.tree, c, v.children[k], fl);
            } else {
                assert(kids[k] == child);
                assert(spared(d1.tree, d2.tree, child.0 as int)) by {
                    assert forall|x: NodeId| #[trigger]
                        d1.tree.nodes.dom().contains(x) && x.0 >= child.0 implies d2.tree.nodes.dom().contains(x)
                        && alike(d1.tree.nodes[x], d2.tree.nodes[x]) by {
                        assert(x != id);
                        if x != child {
                            assert(d2.tree.nodes[x] == d1.tree.nodes[x]);
                        }
                    }
                }
                lemma_shows_spared(d1.tree, d2.tree, child, v.children[k], fl);
            }
        }
        lemma_lowered_children(v, id, i + 1, d2, un1, fl);
        let (r, out) = lowered_children(v, id, i + 1, d2, un1, fl);
        assert(un1 + omitted_from(v, i + 1) =~= un + omitted_from(v, i));
        assert forall|x: NodeId| #[trigger] d.tree.nodes.dom().contains(x) implies r.tree.nodes.dom().contains(x) && (x
            == id || r.tree.nodes[x] == d.tree.nodes[x]) by {
            assert(d1.tree.nodes.dom().contains(x) && d1.tree.nodes[x] == d.tree.nodes[x]);
            assert(d2.tree.nodes.dom().contains(x));
            assert(x != child);
            if x != id {
                assert(d2.tree.nodes[x] == d1.tree.nodes[x]);
            }
        }
    } else {
        assert(v.children.take(i) =~= v.children);
        assert(un + omitted_from(v, i) =~= un);
    }
}

/// A view becomes one node with everything that is on the view, and the nodes of its children
/// become the children of that node in the same order, and so on down; what was there before stays
/// as it was, and nothing that was left out is forgotten.
pub proof fn law_view_becomes_its_node(v: SwiftNode, d: DocModel, un: Seq<Omission>, fl: Unit)
    requires
        sprouting(d),
        d.next_id + view_count(v) <= u64::MAX,
    ensures
        ({
            let (r, out) = lowered(v, d, un, fl);
            &&& shows(r.tree, NodeId(d.next_id), v, fl)
            &&& r.next_id == d.next_id + view_count(v)
            &&& out == un + all_omitted(v)
            &&& forall|x: NodeId| #[trigger]
                d.tree.nodes.dom().contains(x) ==> r.tree.nodes.dom().contains(x) && r.tree.nodes[x]
                    == d.tree.nodes[x]
        }),
{
    lemma_lowered(v, d, un, fl);
}

#[verifier::rlimit(80)]
proof fn lemma_assembled(views: Seq<SwiftNode>, i: int, d: DocModel, un: Seq<Omission>, fl: Unit)
    requires
        sprouting(d),
        0 <= i <= views.len(),
        d.next_id == view_counts(views.take(i)),
        view_counts(views) <= u64::MAX,
        forall|k: int|
            0 <= k < i ==> shows(
                d.tree,
                NodeId(view_counts(views.take(k)) as u64),
                #[trigger] views[k],
                fl,
            ),
        d.tree.root == (if i > 0 {
            Some(NodeId(0))
        } else {
            None
        }),
    ensures
        ({
            let (r, out) = assembled(views, i, d, un, fl);
            &&& forall|k: int|
                0 <= k < views.len() ==> shows(
                    r.tree,
                    NodeId(view_counts(views.take(k)) as u64),
                    #[trigger] views[k],
                    fl,
                )
            &&& r.tree.root == (if views.len() > 0 {
                Some(NodeId(0))
            } else {
                None
            })
        }),
    decreases views.len() - i,
{
    if i < views.len() {
        lemma_counts(views, i);
        lemma_counts_grow(views, i + 1);
        lemma_lowered(views[i], d, un, fl);
        let (d1, un1) = lowered(views[i], d, un, fl);
        let id = NodeId(d.next_id);
        let d2 = if i == 0 {
            sys(d1, MutationModel::SetRoot { id })
        } else {
            d1
        };
        crate::lowering_law::lemma_set_sprouts(d1, MutationModel::SetRoot { id });
        assert(d2.tree.nodes == d1.tree.nodes);
        assert(views.take(0) =~= Seq::<SwiftNode>::empty());
        assert forall|k: int| 0 <= k < i + 1 implies shows(
            d2.tree,
            NodeId(view_counts(views.take(k)) as u64),
            #[trigger] views[k],
            fl,
        ) by {
            let x = NodeId(view_counts(views.take(k)) as u64);
            if k < i {
                assert(shows(d.tree, x, views[k], fl));
                assert(spared(d.tree, d2.tree, x.0 as int));
                lemma_shows_spared(d.tree, d2.tree, x, views[k], fl);
            } else {
                assert(spared(d1.tree, d2.tree, x.0 as int));
                lemma_shows_spared(d1.tree, d2.tree, x, views[k], fl);
            }
        }
        lemma_assembled(views, i + 1, d2, un1, fl);
    }
}

/// The document of a source shows every view of it, and the first is the root.
pub proof fn law_document_shows_every_view(views: Seq<SwiftNode>, k: int, fl: Unit)
    requires
        view_counts(views) <= u64::MAX,
        0 <= k < views.len(),
    ensures
        ({
            let t = assembled(views, 0, empty_doc(), Seq::empty(), fl).0.tree;
            &&& shows(t, NodeId(view_counts(views.take(k)) as u64), views[k], fl)
            &&& t.root == Some(NodeId(0))
        }),
{
    lemma_empty_sprouting();
    assert(views.take(0) =~= Seq::<SwiftNode>::empty());
    lemma_assembled(views, 0, empty_doc(), Seq::empty(), fl);
}

} // verus!
