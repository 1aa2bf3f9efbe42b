//! What document a Flutter widget becomes.
use vstd::prelude::*;

use crate::expr_law::answer;
use crate::float::{FloatQuery, Unit};
use crate::flutter_import::{
    literal_value, lowered, lowered_args, lowered_items, node_kind, node_prop, styled, widgets_in, widgets_in_args,
    widgets_in_items, FlutterValue, FlutterWidget, Omission,
};
use crate::grow_law::{
    alike, lemma_callback_exact, lemma_created_exact, lemma_hung_exact, lemma_poured, lemma_poured_one,
    lemma_prop_exact, poured, spared, touched,
};
use crate::ir::{DocModel, MutationModel, Tree};
use crate::lowering::{created, sys};
use crate::lowering_law::sprouting;
use crate::node::{NodeId, NodeModel};
use crate::value::{ActionModel, ValueModel};

verus! {

/// The name is that of no property: it holds widgets, a callback or a style together.
pub open spec fn structural(key: Seq<char>) -> bool {
    key == "child"@ || key == "children"@ || key == "onPressed"@ || key == "onTap"@ || key == "style"@
}

/// The name `kept` is the one under which the argument `key` of any widget is kept.
pub open spec fn kept_as(key: Seq<char>, kept: Seq<char>) -> bool {
    &&& key == "text"@ || key == "data"@ ==> kept == "content"@
    &&& key == "fontSize"@ || key == "font-size"@ ==> kept == "size"@
    &&& key == "foregroundColor"@ ==> kept == "color"@
    &&& key == "backgroundColor"@ ==> kept == "background"@
    &&& key == "borderRadius"@ ==> kept == "corner_radius"@
    &&& key == "width"@ || key == "height"@ || key == "padding"@ || key == "color"@ || key == "opacity"@ ==> kept
        == key
}

/// The kind `shown` is the one that shows widgets of a kind.
pub open spec fn shown_by(kind: Seq<char>, shown: Seq<char>) -> bool {
    &&& kind == "Container"@ || kind == "Scaffold"@ || kind == "Padding"@ ==> shown == "Stack"@
    &&& kind == "ElevatedButton"@ || kind == "TextButton"@ || kind == "FilledButton"@ ==> shown == "Button"@
    &&& kind == "SizedBox"@ ==> shown == "Rect"@
    &&& kind == "Column"@ || kind == "Row"@ || kind == "Stack"@ || kind == "Text"@ ==> shown == kind
}

proof fn lemma_kinds(kind: Seq<char>)
    ensures
        shown_by(kind, node_kind(kind)),
{
    reveal_strlit("Container");
    reveal_strlit("Scaffold");
    reveal_strlit("Padding");
    reveal_strlit("ElevatedButton");
    reveal_strlit("TextButton");
    reveal_strlit("FilledButton");
    reveal_strlit("SizedBox");
    reveal_strlit("Column");
    reveal_strlit("Row");
    reveal_strlit("Stack");
    reveal_strlit("Text");
    assert("Container"@.len() == 9 && "Scaffold"@.len() == 8 && "Padding"@.len() == 7);
    assert("ElevatedButton"@.len() == 14 && "TextButton"@.len() == 10 && "FilledButton"@.len() == 12);
    assert("SizedBox"@.len() == 8 && "Column"@.len() == 6 && "Row"@.len() == 3 && "Stack"@.len() == 5);
    assert("Text"@.len() == 4 && "Scaffold"@[1] == 'c' && "SizedBox"@[1] == 'i');
}

/// Arguments that are no structure are kept under the name that means the same in a document, and a
/// literal keeps its content; what is no literal has no place in a document.
pub proof fn law_argument_becomes_its_namesake(key: Seq<char>, v: FlutterValue, fl: Unit)
    ensures
        structural(key) <==> node_prop(key) is None,
        !structural(key) ==> kept_as(key, node_prop(key)->0),
        v matches FlutterValue::Str(s) ==> literal_value(v, fl) == Some(ValueModel::Text(s)),
        v matches FlutterValue::Color(c) ==> literal_value(v, fl) == Some(ValueModel::Color(c)),
        v matches FlutterValue::Bool(x) ==> literal_value(v, fl) == Some(ValueModel::Bool(x)),
        v matches FlutterValue::Float(text) ==> literal_value(v, fl) == Some(
            ValueModel::Float(answer(fl, FloatQuery::Read { text })),
        ),
        v is Int ==> (literal_value(v, fl) matches Some(w) && w is Int),
        v is Widget || v is List || v is Ident ==> literal_value(v, fl) is None,
{
    reveal_strlit("child");
    reveal_strlit("children");
    reveal_strlit("onPressed");
    reveal_strlit("onTap");
    reveal_strlit("style");
    reveal_strlit("text");
    reveal_strlit("data");
    reveal_strlit("fontSize");
    reveal_strlit("font-size");
    reveal_strlit("foregroundColor");
    reveal_strlit("backgroundColor");
    reveal_strlit("borderRadius");
    reveal_strlit("width");
    reveal_strlit("height");
    reveal_strlit("padding");
    reveal_strlit("color");
    reveal_strlit("opacity");
    assert("child"@.len() == 5 && "children"@.len() == 8 && "onPressed"@.len() == 9 && "onTap"@.len() == 5);
    assert("style"@.len() == 5 && "text"@.len() == 4 && "data"@.len() == 4 && "fontSize"@.len() == 8);
    assert("font-size"@.len() == 9 && "foregroundColor"@.len() == 15 && "backgroundColor"@.len() == 15);
    assert("borderRadius"@.len() == 12 && "width"@.len() == 5 && "height"@.len() == 6);
    assert("padding"@.len() == 7 && "color"@.len() == 5 && "opacity"@.len() == 7);
    assert("child"@[1] == 'h' && "color"@[1] == 'o' && "onTap"@[0] == 'o' && "style"@[0] == 's');
    assert("width"@[0] == 'w' && "child"@[0] == 'c' && "color"@[0] == 'c');
    assert("children"@[0] == 'c' && "fontSize"@[0] == 'f');
    assert("onPressed"@[0] == 'o' && "font-size"@[0] == 'f');
    assert("foregroundColor"@[0] == 'f' && "backgroundColor"@[0] == 'b');
}

/// The name under which an argument is kept: a colour is that of the text of a text, and else that
/// of the background.
pub open spec fn name_on(kind: Seq<char>, key: Seq<char>) -> Seq<char> {
    if key == "color"@ && kind != "Text"@ {
        "background"@
    } else {
        node_prop(key)->0
    }
}

/// What the arguments of a style from the `i`-th on put on a node.
pub open spec fn style_from(args: Seq<(Seq<char>, FlutterValue, int)>, i: int, fl: Unit) -> Seq<
    (Seq<char>, ValueModel),
>
    decreases args.len() - i,
{
    if i < 0 || i >= args.len() {
        Seq::empty()
    } else {
        (if !structural(args[i].0) && literal_value(args[i].1, fl) is Some {
            seq![(node_prop(args[i].0)->0, literal_value(args[i].1, fl)->0)]
        } else {
            Seq::empty()
        }) + style_from(args, i + 1, fl)
    }
}

/// What one argument puts on a node.
pub open spec fn puts(kind: Seq<char>, key: Seq<char>, v: FlutterValue, fl: Unit) -> Seq<(Seq<char>, ValueModel)> {
    if key == "style"@ {
        match v {
            FlutterValue::Widget(w) => style_from(w.args, 0, fl),
            _ => Seq::empty(),
        }
    } else if !structural(key) && literal_value(v, fl) is Some {
        seq![(name_on(kind, key), literal_value(v, fl)->0)]
    } else {
        Seq::empty()
    }
}

/// What the arguments from the `i`-th on put on a node.
pub open spec fn puts_from(w: FlutterWidget, i: int, fl: Unit) -> Seq<(Seq<char>, ValueModel)>
    decreases w.args.len() - i,
{
    if i < 0 || i >= w.args.len() {
        Seq::empty()
    } else {
        puts(w.kind, w.args[i].0, w.args[i].1, fl) + puts_from(w, i + 1, fl)
    }
}

/// The text without a name as the content, and then what the arguments put on a node.
pub open spec fn entries(w: FlutterWidget, fl: Unit) -> Seq<(Seq<char>, ValueModel)> {
    (match w.positional {
        Some(s) => seq![("content"@, ValueModel::Text(s))],
        None => Seq::empty(),
    }) + puts_from(w, 0, fl)
}

/// The callback that one argument means: a press or a tap is a click, with the action that the
/// argument names, and else with its own name.
pub open spec fn click(key: Seq<char>, v: FlutterValue) -> Seq<(Seq<char>, ActionModel)> {
    if key == "onPressed"@ || key == "onTap"@ {
        seq![
            (
                "click"@,
                ActionModel {
                    name: match v {
                        FlutterValue::Str(s) => s,
                        FlutterValue::Ident(s) => s,
                        _ => key,
                    },
                    args: Seq::empty(),
                },
            ),
        ]
    } else {
        Seq::empty()
    }
}

/// The callbacks that the arguments from the `i`-th on mean.
pub open spec fn clicks_from(w: FlutterWidget, i: int) -> Seq<(Seq<char>, ActionModel)>
    decreases w.args.len() - i,
{
    if i < 0 || i >= w.args.len() {
        Seq::empty()
    } else {
        click(w.args[i].0, w.args[i].1) + clicks_from(w, i + 1)
    }
}

/// The widgets of a list from the `j`-th item on.
pub open spec fn widgets_from(items: Seq<FlutterValue>, j: int) -> Seq<FlutterWidget>
    decreases items.len() - j,
{
    if j < 0 || j >= items.len() {
        Seq::empty()
    } else {
        (match items[j] {
            FlutterValue::Widget(w) => seq![w],
            _ => Seq::empty(),
        }) + widgets_from(items, j + 1)
    }
}

/// The widgets that one argument holds as children.
pub open spec fn held(key: Seq<char>, v: FlutterValue) -> Seq<FlutterWidget> {
    if key == "child"@ {
        match v {
            FlutterValue::Widget(w) => seq![w],
            _ => Seq::empty(),
        }
    } else if key == "children"@ {
        match v {
            FlutterValue::List(items) => widgets_from(items, 0),
            _ => Seq::empty(),
        }
    } else {
        Seq::empty()
    }
}

/// The widgets that the arguments from the `i`-th on hold as children.
pub open spec fn held_from(w: FlutterWidget, i: int) -> Seq<FlutterWidget>
    decreases w.args.len() - i,
{
    if i < 0 || i >= w.args.len() {
        Seq::empty()
    } else {
        held(w.args[i].0, w.args[i].1) + held_from(w, i + 1)
    }
}

/// The node shows the widget, down to `n` levels below it: it is of the kind for it, has what the
/// widget puts on it and its callbacks and nothing else, and its children, younger than it, show
/// the widgets that the widget holds, in their order.
pub open spec fn shows(t: Tree, id: NodeId, w: FlutterWidget, fl: Unit, n: nat) -> bool
    decreases n,
{
    let x = t.nodes[id];
    let kids = held_from(w, 0);
    &&& t.nodes.dom().contains(id)
    &&& x.kind == node_kind(w.kind)
    &&& shown_by(w.kind, x.kind)
    &&& x.props == poured(Map::empty(), entries(w, fl))
    &&& x.callbacks == poured(Map::empty(), clicks_from(w, 0))
    &&& x.children.len() == kids.len()
    &&& forall|i: int| 0 <= i < kids.len() ==> id.0 < (#[trigger] x.children[i]).0
    &&& n > 0 ==> forall|i: int|
        0 <= i < kids.len() ==> shows(t, x.children[i], #[trigger] kids[i], fl, (n - 1) as nat)
}

proof fn lemma_shows_spared(a: Tree, b: Tree, id: NodeId, w: FlutterWidget, fl: Unit, n: nat)
    requires
        shows(a, id, w, fl, n),
        spared(a, b, id.0 as int),
    ensures
        shows(b, id, w, fl, n),
    decreases n,
{
    assert(alike(a.nodes[id], b.nodes[id]));
    let kids = held_from(w, 0);
    if n > 0 {
        assert forall|i: int| 0 <= i < kids.len() implies shows(
            b,
            b.nodes[id].children[i],
            #[trigger] kids[i],
            fl,
            (n - 1) as nat,
        ) by {
            let c = a.nodes[id].children[i];
            assert(shows(a, c, kids[i], fl, (n - 1) as nat));
            assert(id.0 < c.0);
            assert(spared(a, b, c.0 as int));
            lemma_shows_spared(a, b, c, kids[i], fl, (n - 1) as nat);
        }
    }
}

proof fn lemma_styled(id: NodeId, args: Seq<(Seq<char>, FlutterValue, int)>, i: int, d: DocModel, fl: Unit)
    requires
        sprouting(d),
        d.tree.nodes.dom().contains(id),
        0 <= i,
    ensures
        ({
            let r = styled(id, args, i, d, fl);
            let x = d.tree.nodes[id];
            &&& sprouting(r)
            &&& touched(d, r, id)
            &&& r.next_id == d.next_id
            &&& r.tree.nodes[id] == (NodeModel { props: poured(x.props, style_from(args, i, fl)), ..x })
        }),
    decreases args.len() - i,
{
    let x = d.tree.nodes[id];
    if i < args.len() {
        let (k, v, _) = args[i];
        law_argument_becomes_its_namesake(k, v, fl);
        let rest = style_from(args, i + 1, fl);
        if !structural(k) && literal_value(v, fl) is Some {
            let key = node_prop(k)->0;
            let value = literal_value(v, fl)->0;
            lemma_prop_exact(d, id, key, value);
            lemma_poured_one(x.props, key, value);
            lemma_styled(id, args, i + 1, sys(d, MutationModel::SetProp { id, key, value }), fl);
            lemma_poured(x.props, seq![(key, value)], rest);
        } else {
            lemma_styled(id, args, i + 1, d, fl);
            assert(Seq::<(Seq<char>, ValueModel)>::empty() + rest =~= rest);
        }
    }
}

/// The nodes of the earlier document are in the later one as they were.
spec fn added(a: DocModel, b: DocModel) -> bool {
    &&& a.next_id <= b.next_id
    &&& a.tree.root == b.tree.root
    &&& forall|x: NodeId| #[trigger]
        a.tree.nodes.dom().contains(x) ==> b.tree.nodes.dom().contains(x) && b.tree.nodes[x] == a.tree.nodes[x]
}

/// The children of a node show widgets.
spec fn lined_up(t: Tree, id: NodeId, ws: Seq<FlutterWidget>, fl: Unit, n: nat) -> bool {
    let kids = t.nodes[id].children;
    &&& t.nodes.dom().contains(id)
    &&& kids.len() == ws.len()
    &&& forall|k: int| 0 <= k < ws.len() ==> id.0 < (#[trigger] kids[k]).0
    &&& n > 0 ==> forall|k: int| 0 <= k < ws.len() ==> shows(t, kids[k], #[trigger] ws[k], fl, (n - 1) as nat)
}

proof fn lemma_lined_up_touched(a: DocModel, b: DocModel, id: NodeId, ws: Seq<FlutterWidget>, fl: Unit, n: nat)
    requires
        lined_up(a.tree, id, ws, fl, n),
        touched(a, b, id),
        a.tree.nodes[id].children == b.tree.nodes[id].children,
    ensures
        lined_up(b.tree, id, ws, fl, n),
{
    let kids = a.tree.nodes[id].children;
    if n > 0 {
        assert forall|k: int| 0 <= k < ws.len() implies shows(b.tree, kids[k], #[trigger] ws[k], fl, (n - 1) as nat)
            by {
            assert(id.0 < kids[k].0);
            assert(shows(a.tree, kids[k], ws[k], fl, (n - 1) as nat));
            assert(spared(a.tree, b.tree, kids[k].0 as int));
            lemma_shows_spared(a.tree, b.tree, kids[k], ws[k], fl, (n - 1) as nat);
        }
    }
}

proof fn lemma_hung(d: DocModel, d1: DocModel, id: NodeId, ws: Seq<FlutterWidget>, w: FlutterWidget, fl: Unit, n: nat)
    requires
        sprouting(d1),
        added(d, d1),
        lined_up(d.tree, id, ws, fl, n),
        id.0 < d.next_id,
        n > 0 ==> shows(d1.tree, NodeId(d.next_id), w, fl, (n - 1) as nat),
        d1.tree.nodes.dom().contains(NodeId(d.next_id)),
        !d.tree.nodes.dom().contains(NodeId(d.next_id)),
        d1.tree.nodes[NodeId(d.next_id)].parent is None,
    ensures
        ({
            let child = NodeId(d.next_id);
            let r = sys(d1, MutationModel::AppendChild { parent: id, child });
            &&& sprouting(r)
            &&& r.next_id == d1.next_id
            &&& lined_up(r.tree, id, ws.push(w), fl, n)
            &&& touched(d, r, id)
            &&& r.tree.nodes[id] == (NodeModel { children: r.tree.nodes[id].children, ..d.tree.nodes[id] })
        }),
{
    let child = NodeId(d.next_id);
    assert(d1.tree.nodes[id] == d.tree.nodes[id]);
    lemma_hung_exact(d1, id, child);
    let r = sys(d1, MutationModel::AppendChild { parent: id, child });
    let kids = r.tree.nodes[id].children;
    let more = ws.push(w);
    assert(kids == d.tree.nodes[id].children.push(child));
    assert forall|k: int| 0 <= k < more.len() implies id.0 < (#[trigger] kids[k]).0 by {
        if k < ws.len() {
            assert(kids[k] == d.tree.nodes[id].children[k]);
        }
    }
    if n > 0 {
        assert forall|k: int| 0 <= k < more.len() implies shows(
            r.tree,
            kids[k],
            #[trigger] more[k],
            fl,
            (n - 1) as nat,
        ) by {
            if k < ws.len() {
                let c = d.tree.nodes[id].children[k];
                assert(kids[k] == c);
                assert(id.0 < c.0);
                assert(shows(d.tree, c, ws[k], fl, (n - 1) as nat));
                assert(spared(d.tree, r.tree, c.0 as int)) by {
                    assert forall|x: NodeId| #[trigger]
                        d.tree.nodes.dom().contains(x) && x.0 >= c.0 implies r.tree.nodes.dom().contains(x) && alike(
                        d.tree.nodes[x],
                        r.tree.nodes[x],
                    ) by {
                        assert(d1.tree.nodes[x] == d.tree.nodes[x]);
                        assert(r.tree.nodes[x] == d1.tree.nodes[x]);
                    }
                }
                lemma_shows_spared(d.tree, r.tree, c, ws[k], fl, (n - 1) as nat);
            } else {
                assert(kids[k] == child);
                assert(spared(d1.tree, r.tree, child.0 as int)) by {
                    assert forall|x: NodeId| #[trigger]
                        d1.tree.nodes.dom().contains(x) && x.0 >= child.0 implies r.tree.nodes.dom().contains(x)
                        && alike(d1.tree.nodes[x], r.tree.nodes[x]) by {
                        if x != child {
                            assert(r.tree.nodes[x] == d1.tree.nodes[x]);
                        }
                    }
                }
                lemma_shows_spared(d1.tree, r.tree, child, w, fl, (n - 1) as nat);
            }
        }
    }
    assert forall|x: NodeId| #[trigger] d.tree.nodes.dom().contains(x) implies r.tree.nodes.dom().contains(x) && (x
        == id || r.tree.nodes[x] == d.tree.nodes[x]) by {
        assert(d1.tree.nodes[x] == d.tree.nodes[x]);
        if x != id {
            assert(r.tree.nodes[x] == d1.tree.nodes[x]);
        }
    }
}

proof fn lemma_args_take(s: Seq<(Seq<char>, FlutterValue, int)>, i: int)
    requires
        0 <= i < s.len(),
    ensures
        widgets_in_args(s.take(i + 1)) == widgets_in_args(s.take(i)) + widgets_in(s[i].1),
{
    assert(s.take(i + 1).drop_last() =~= s.take(i));
}

proof fn lemma_items_take(s: Seq<FlutterValue>, i: int)
    requires
        0 <= i < s.len(),
    ensures
        widgets_in_items(s.take(i + 1)) == widgets_in_items(s.take(i)) + widgets_in(s[i]),
{
    assert(s.take(i + 1).drop_last() =~= s.take(i));
}

proof fn lemma_args_grow(s: Seq<(Seq<char>, FlutterValue, int)>, i: int)
    requires
        0 <= i <= s.len(),
    ensures
        widgets_in_args(s.take(i)) <= widgets_in_args(s),
    decreases s.len() - i,
{
    if i < s.len() {
        lemma_args_take(s, i);
        lemma_args_grow(s, i + 1);
    } else {
        assert(s.take(i) =~= s);
    }
}

proof fn lemma_items_grow(s: Seq<FlutterValue>, i: int)
    requires
        0 <= i <= s.len(),
    ensures
        widgets_in_items(s.take(i)) <= widgets_in_items(s),
    decreases s.len() - i,
{
    if i < s.len() {
        lemma_items_take(s, i);
        lemma_items_grow(s, i + 1);
    } else {
        assert(s.take(i) =~= s);
    }
}

proof fn lemma_lowered(w: FlutterWidget, d: DocModel, un: Seq<Omission>, fl: Unit, n: nat)
    requires
        sprouting(d),
        d.next_id + 1 + widgets_in_args(w.args) <= u64::MAX,
    ensures
        ({
            let r = lowered(w, d, un, fl).0;
            let id = NodeId(d.next_id);
            &&& sprouting(r)
            &&& added(d, r)
            &&& r.next_id <= d.next_id + 1 + widgets_in_args(w.args)
            &&& shows(r.tree, id, w, fl, n)
            &&& r.tree.nodes[id].parent is None
            &&& !d.tree.nodes.dom().contains(id)
        }),
    decreases w, w.args.len() + 1,
{
    let id = NodeId(d.next_id);
    let d1 = created(d, node_kind(w.kind));
    lemma_created_exact(d, node_kind(w.kind));
    lemma_kinds(w.kind);
    let nothing = Map::<Seq<char>, ValueModel>::empty();
    let first: Seq<(Seq<char>, ValueModel)> = match w.positional {
        Some(s) => seq![("content"@, ValueModel::Text(s))],
        None => Seq::empty(),
    };
    let d2 = match w.positional {
        Some(s) => {
            lemma_prop_exact(d1, id, "content"@, ValueModel::Text(s));
            lemma_poured_one(nothing, "content"@, ValueModel::Text(s));
            sys(d1, MutationModel::SetProp { id, key: "content"@, value: ValueModel::Text(s) })
        },
        None => d1,
    };
    assert(d2.tree.nodes[id].props == poured(nothing, first));
    let none = Seq::<FlutterWidget>::empty();
    assert(w.args.take(0) =~= Seq::<(Seq<char>, FlutterValue, int)>::empty());
    assert(d2.tree.nodes[id].children =~= Seq::<NodeId>::empty());
    lemma_args(w, id, 0, d2, un, fl, n, none);
    lemma_poured(nothing, first, puts_from(w, 0, fl));
    assert(none + held_from(w, 0) =~= held_from(w, 0));
    let r = lowered(w, d, un, fl).0;
    assert forall|x: NodeId| #[trigger] d.tree.nodes.dom().contains(x) implies r.tree.nodes.dom().contains(x)
        && r.tree.nodes[x] == d.tree.nodes[x] by {
        assert(d1.tree.nodes.dom().contains(x) && x != id);
        assert(d2.tree.nodes.dom().contains(x));
    }
}

proof fn lemma_args(
    w: FlutterWidget,
    id: NodeId,
    i: int,
    d: DocModel,
    un: Seq<Omission>,
    fl: Unit,
    n: nat,
    ws: Seq<FlutterWidget>,
)
    requires
        0 <= i <= w.args.len(),
        sprouting(d),
        id.0 < d.next_id,
        d.next_id <= id.0 + 1 + widgets_in_args(w.args.take(i)),
        id.0 + 1 + widgets_in_args(w.args) <= u64::MAX,
        lined_up(d.tree, id, ws, fl, n),
    ensures
        ({
            let r = lowered_args(w, id, i, d, un, fl).0;
            let x = d.tree.nodes[id];
            let m = r.tree.nodes[id];
            &&& sprouting(r)
            &&& touched(d, r, id)
            &&& r.next_id <= id.0 + 1 + widgets_in_args(w.args)
            &&& lined_up(r.tree, id, ws + held_from(w, i), fl, n)
            &&& m == (NodeModel {
                props: poured(x.props, puts_from(w, i, fl)),
                callbacks: poured(x.callbacks, clicks_from(w, i)),
                children: m.children,
                ..x
            })
        }),
    decreases w, w.args.len() - i,
{
    let x = d.tree.nodes[id];
    if i < w.args.len() {
        let key = w.args[i].0;
        let v = w.args[i].1;
        lemma_args_take(w.args, i);
        lemma_args_grow(w.args, i + 1);
        law_argument_becomes_its_namesake(key, v, fl);
        reveal_strlit("child");
        reveal_strlit("children");
        reveal_strlit("onPressed");
        reveal_strlit("onTap");
        reveal_strlit("style");
        assert("child"@.len() == 5 && "children"@.len() == 8 && "onPressed"@.len() == 9 && "onTap"@.len() == 5);
        assert("style"@.len() == 5 && "child"@[0] == 'c' && "onTap"@[0] == 'o' && "style"@[0] == 's');
        let more = ws + held(key, v);
        let no_props = Seq::<(Seq<char>, ValueModel)>::empty();
        let no_clicks = Seq::<(Seq<char>, ActionModel)>::empty();
        assert(ws + Seq::<FlutterWidget>::empty() =~= ws);
        assert(poured(x.props, no_props) == x.props);
        assert(poured(x.callbacks, no_clicks) == x.callbacks);
        let (d1, un1) = if key == "child"@ {
            match v {
                FlutterValue::Widget(cw) => {
                    lemma_lowered(
                        cw,
                        d,
                        un,
                        fl,
                        if n > 0 {
                            (n - 1) as nat
                        } else {
                            0
                        },
                    );
                    let (dc, unc) = lowered(cw, d, un, fl);
                    lemma_hung(d, dc, id, ws, cw, fl, n);
                    assert(ws.push(cw) =~= more);
                    (sys(dc, MutationModel::AppendChild { parent: id, child: NodeId(d.next_id) }), unc)
                },
                _ => (d, un),
            }
        } else if key == "children"@ {
            match v {
                FlutterValue::List(items) => {
                    assert(items.take(0) =~= Seq::<FlutterValue>::empty());
                    lemma_items(items, id, 0, d, un, fl, n, ws, d.next_id as int);
                    lowered_items(items, id, 0, d, un, fl)
                },
                _ => (d, un),
            }
        } else if key == "onPressed"@ || key == "onTap"@ {
            let (event, action) = click(key, v)[0];
            lemma_callback_exact(d, id, event, action);
            lemma_poured_one(x.callbacks, event, action);
            let r = sys(d, MutationModel::SetCallback { id, event, action });
            lemma_lined_up_touched(d, r, id, ws, fl, n);
            (r, un)
        } else if key == "style"@ {
            match v {
                FlutterValue::Widget(sw) => {
                    lemma_styled(id, sw.args, 0, d, fl);
                    let r = styled(id, sw.args, 0, d, fl);
                    lemma_lined_up_touched(d, r, id, ws, fl, n);
                    (r, un)
                },
                _ => (d, un),
            }
        } else {
            match literal_value(v, fl) {
                Some(value) => {
                    lemma_prop_exact(d, id, name_on(w.kind, key), value);
                    lemma_poured_one(x.props, name_on(w.kind, key), value);
                    let r = sys(d, MutationModel::SetProp { id, key: name_on(w.kind, key), value });
                    lemma_lined_up_touched(d, r, id, ws, fl, n);
                    (r, un)
                },
                None => (
                    d,
                    un.push(
                        Omission {
                            line: w.args[i].2,
                            text: "prop '"@ + key + "' = "@ + crate::flutter_import::shape(v),
                        },
                    ),
                ),
            }
        };
        assert(lined_up(d1.tree, id, more, fl, n));
        assert(d1.tree.nodes[id].props == poured(x.props, puts(w.kind, key, v, fl)));
        assert(d1.tree.nodes[id].callbacks == poured(x.callbacks, click(key, v)));
        lemma_args(w, id, i + 1, d1, un1, fl, n, more);
        assert(lowered_args(w, id, i, d, un, fl) == lowered_args(w, id, i + 1, d1, un1, fl));
        lemma_poured(x.props, puts(w.kind, key, v, fl), puts_from(w, i + 1, fl));
        lemma_poured(x.callbacks, click(key, v), clicks_from(w, i + 1));
        assert(more + held_from(w, i + 1) =~= ws + held_from(w, i));
        let r = lowered_args(w, id, i, d, un, fl).0;
        assert forall|y: NodeId| #[trigger] d.tree.nodes.dom().contains(y) implies r.tree.nodes.dom().contains(y) && (y
            == id || r.tree.nodes[y] == d.tree.nodes[y]) by {
            assert(d1.tree.nodes.dom().contains(y));
        }
    } else {
        assert(ws + held_from(w, i) =~= ws);
        assert(w.args.take(i) =~= w.args);
    }
}

proof fn lemma_items(
    items: Seq<FlutterValue>,
    id: NodeId,
    j: int,
    d: DocModel,
    un: Seq<Omission>,
    fl: Unit,
    n: nat,
    ws: Seq<FlutterWidget>,
    from: int,
)
    requires
        0 <= j <= items.len(),
        sprouting(d),
        id.0 < d.next_id,
        d.next_id <= from + widgets_in_items(items.take(j)),
        from + widgets_in_items(items) <= u64::MAX,
        lined_up(d.tree, id, ws, fl, n),
    ensures
        ({
            let r = lowered_items(items, id, j, d, un, fl).0;
            let x = d.tree.nodes[id];
            let m = r.tree.nodes[id];
            &&& sprouting(r)
            &&& touched(d, r, id)
            &&& r.next_id <= from + widgets_in_items(items)
            &&& lined_up(r.tree, id, ws + widgets_from(items, j), fl, n)
            &&& m == (NodeModel { children: m.children, ..x })
        }),
    decreases items, items.len() - j,
{
    if j < items.len() {
        lemma_items_take(items, j);
        lemma_items_grow(items, j + 1);
        let found: Seq<FlutterWidget> = match items[j] {
            FlutterValue::Widget(w) => seq![w],
            _ => Seq::empty(),
        };
        let more = ws + found;
        let (d1, un1) = match items[j] {
            FlutterValue::Widget(cw) => {
                lemma_lowered(
                    cw,
                    d,
                    un,
                    fl,
                    if n > 0 {
                        (n - 1) as nat
                    } else {
                        0
                    },
                );
                let (dc, unc) = lowered(cw, d, un, fl);
                lemma_hung(d, dc, id, ws, cw, fl, n);
                assert(ws.push(cw) =~= more);
                (sys(dc, MutationModel::AppendChild { parent: id, child: NodeId(d.next_id) }), unc)
            },
            _ => {
                assert(more =~= ws);
                (d, un)
            },
        };
        lemma_items(items, id, j + 1, d1, un1, fl, n, more, from);
        assert(more + widgets_from(items, j + 1) =~= ws + widgets_from(items, j));
        let r = lowered_items(items, id, j, d, un, fl).0;
        assert forall|y: NodeId| #[trigger] d.tree.nodes.dom().contains(y) implies r.tree.nodes.dom().contains(y) && (y
            == id || r.tree.nodes[y] == d.tree.nodes[y]) by {
            assert(d1.tree.nodes.dom().contains(y));
        }
    } else {
        assert(ws + widgets_from(items, j) =~= ws);
        assert(items.take(j) =~= items);
    }
}

/// A widget becomes one node that shows it and all the widgets in it, to every depth; what was
/// there before stays as it was.
pub proof fn law_widget_becomes_its_node(w: FlutterWidget, d: DocModel, un: Seq<Omission>, fl: Unit, n: nat)
    requires
        sprouting(d),
        d.next_id + 1 + widgets_in_args(w.args) <= u64::MAX,
    ensures
        ({
            let r = lowered(w, d, un, fl).0;
            &&& shows(r.tree, NodeId(d.next_id), w, fl, n)
            &&& r.tree.nodes[NodeId(d.next_id)].parent is None
            &&& forall|x: NodeId| #[trigger]
                d.tree.nodes.dom().contains(x) ==> r.tree.nodes.dom().contains(x) && r.tree.nodes[x]
                    == d.tree.nodes[x]
        }),
{
    lemma_lowered(w, d, un, fl, n);
}

} // verus!
