//! What is drawn for every node, by the properties that the node has and the rectangle that it was
//! given.
use vstd::prelude::*;

use crate::float::Unit;
use crate::ir::Tree;
use crate::layout::{color_at, ComputedRect, LayoutModel};
use crate::node::NodeModel;
use crate::paint::{drawn, drawn_at, scene_of};
use crate::place_law::holds_boxes;
use crate::scene::CmdModel;
use crate::style_law::{length_under, lemma_length};
use crate::value::ValueModel;

verus! {

/// The node has the colour under the key.
pub open spec fn colored(n: NodeModel, key: Seq<char>, color: u32) -> bool {
    n.props.dom().contains(key) && n.props[key] == ValueModel::Color(color)
}

/// The node has no colour under the key.
pub open spec fn uncolored(n: NodeModel, key: Seq<char>) -> bool {
    forall|color: u32| !#[trigger] colored(n, key, color)
}

/// The node has a length under one of two keys, the first before the second, or none and another
/// stands for it.
pub open spec fn length_by(fl: Unit, n: NodeModel, first: Seq<char>, second: Seq<char>, other: u32, r: u32) -> bool {
    ||| length_under(fl, n, first, Some(r))
    ||| length_under(fl, n, first, None) && length_under(fl, n, second, Some(r))
    ||| length_under(fl, n, first, None) && length_under(fl, n, second, None) && r == other
}

/// The command fills exactly the rectangle, in the colour, with the radius at its corners, upright.
pub open spec fn fills(c: CmdModel, r: ComputedRect, in_color: u32, radius: u32) -> bool {
    match c {
        CmdModel::FilledRect { x, y, w, h, color, corner_radius, rotation } => {
            &&& (x, y, w, h) == (r.x, r.y, r.w, r.h)
            &&& color == in_color
            &&& corner_radius == radius
            &&& rotation == 0
        },
        _ => false,
    }
}

/// What a node that lays children out is drawn as: its background in its rectangle, or over the whole
/// viewport and square for the root, where it has a background colour, and nothing where it has none.
pub open spec fn shows_background(fl: Unit, n: NodeModel, r: ComputedRect, page: Option<(u32, u32)>, c: Option<CmdModel>) -> bool {
    &&& uncolored(n, "background"@) ==> c is None
    &&& forall|color: u32| #[trigger]
        colored(n, "background"@, color) ==> {
            &&& c is Some
            &&& page matches Some(v) ==> fills(c->0, ComputedRect { x: 0, y: 0, w: v.0, h: v.1 }, color, 0)
            &&& page is None ==> exists|radius: u32|
                fills(c->0, r, color, radius) && #[trigger] length_by(fl, n, "corner_radius"@, "radius"@, 0, radius)
        }
}

/// A rectangle is drawn in its colour, white where it names none.
pub open spec fn shows_rect(fl: Unit, n: NodeModel, r: ComputedRect, c: Option<CmdModel>) -> bool {
    c is Some && exists|color: u32, radius: u32|
        {
            &&& #[trigger] fills(c->0, r, color, radius)
            &&& colored(n, "color"@, color) || (uncolored(n, "color"@) && color == 0xFFFF_FFFF)
            &&& length_by(fl, n, "corner_radius"@, "radius"@, 0, radius)
        }
}

/// A frosted panel is drawn in its rectangle with its tint and its blur, under either of their names;
/// the tint is thin white and the blur is 12 where it names none.
pub open spec fn shows_frost(fl: Unit, n: NodeModel, r: ComputedRect, c: Option<CmdModel>) -> bool {
    match c {
        Some(CmdModel::FrostedRect { x, y, w, h, corner_radius, tint, blur_radius }) => {
            &&& (x, y, w, h) == (r.x, r.y, r.w, r.h)
            &&& length_by(fl, n, "corner_radius"@, "radius"@, 0, corner_radius)
            &&& length_by(fl, n, "blur_radius"@, "blur"@, 0x4140_0000, blur_radius)
            &&& {
                ||| colored(n, "tint"@, tint)
                ||| uncolored(n, "tint"@) && colored(n, "color"@, tint)
                ||| uncolored(n, "tint"@) && uncolored(n, "color"@) && tint == 0xFFFF_FF40
            }
        },
        _ => false,
    }
}

/// A text is written from the corner of its rectangle, with its content, size and colour; the size is
/// 16 and the colour white where it names none.
pub open spec fn shows_text(fl: Unit, n: NodeModel, r: ComputedRect, c: Option<CmdModel>) -> bool {
    match c {
        Some(CmdModel::Text { x, y, content, size, color }) => {
            &&& (x, y) == (r.x, r.y)
            &&& if n.props.dom().contains("content"@) && n.props["content"@] is Text {
                n.props["content"@] == ValueModel::Text(content)
            } else {
                content.len() == 0
            }
            &&& length_under(fl, n, "size"@, Some(size)) || (length_under(fl, n, "size"@, None) && size == 0x4180_0000)
            &&& colored(n, "color"@, color) || (uncolored(n, "color"@) && color == 0xFFFF_FFFF)
        },
        _ => false,
    }
}

/// What a node is drawn as, by its kind.
pub open spec fn shows(fl: Unit, n: NodeModel, r: ComputedRect, page: Option<(u32, u32)>, c: Option<CmdModel>) -> bool {
    &&& holds_boxes(n.kind) ==> shows_background(fl, n, r, page, c)
    &&& n.kind == "Rect"@ ==> shows_rect(fl, n, r, c)
    &&& n.kind == "Frost"@ ==> shows_frost(fl, n, r, c)
    &&& n.kind == "FrostedRect"@ ==> shows_frost(fl, n, r, c)
    &&& n.kind == "Text"@ ==> shows_text(fl, n, r, c)
    &&& !holds_boxes(n.kind) && n.kind != "Rect"@ && n.kind != "Frost"@ && n.kind != "FrostedRect"@ && n.kind != "Text"@
        ==> c is None
}

proof fn lemma_kinds(kind: Seq<char>)
    ensures
        kind == "Rect"@ ==> !holds_boxes(kind),
        kind == "Frost"@ ==> !holds_boxes(kind) && kind != "Rect"@,
        kind == "FrostedRect"@ ==> !holds_boxes(kind) && kind != "Rect"@,
        kind == "Text"@ ==> !holds_boxes(kind) && kind != "Rect"@ && kind != "Frost"@ && kind != "FrostedRect"@,
        "Frost"@ != "FrostedRect"@,
{
    reveal_strlit("Stack");
    reveal_strlit("Column");
    reveal_strlit("Row");
    reveal_strlit("Grid");
    reveal_strlit("Rect");
    reveal_strlit("Frost");
    reveal_strlit("FrostedRect");
    reveal_strlit("Text");
    assert("Stack"@[0] == 'S' && "Column"@[0] == 'C' && "Row"@[0] == 'R' && "Grid"@[0] == 'G');
    assert("Rect"@[0] == 'R' && "Rect"@.len() == 4 && "Row"@.len() == 3);
    assert("Frost"@[0] == 'F' && "FrostedRect"@[0] == 'F' && "Text"@[0] == 'T');
    assert("Frost"@.len() == 5 && "FrostedRect"@.len() == 11);
}

proof fn lemma_color(n: NodeModel, key: Seq<char>)
    ensures
        color_at(n, key) matches Some(c) ==> colored(n, key, c),
        color_at(n, key) is None ==> uncolored(n, key),
{
}

/// What a node is drawn as, by its kind, its properties and its rectangle.
pub proof fn law_node_is_drawn(fl: Unit, n: NodeModel, r: ComputedRect, page: Option<(u32, u32)>)
    ensures
        shows(fl, n, r, page, drawn(fl, n, r, page)),
{
    let c = drawn(fl, n, r, page);
    lemma_kinds(n.kind);
    lemma_color(n, "background"@);
    lemma_color(n, "color"@);
    lemma_color(n, "tint"@);
    lemma_length(fl, n, "corner_radius"@);
    lemma_length(fl, n, "radius"@);
    lemma_length(fl, n, "blur_radius"@);
    lemma_length(fl, n, "blur"@);
    lemma_length(fl, n, "size"@);
    let radius = crate::paint::corner(fl, n);
    assert(length_by(fl, n, "corner_radius"@, "radius"@, 0, radius));
    if holds_boxes(n.kind) {
        assert(shows_background(fl, n, r, page, c));
    } else if n.kind == "Rect"@ {
        let color = crate::paint::or_else(color_at(n, "color"@), 0xFFFF_FFFF);
        assert(fills(c->0, r, color, radius));
    } else if n.kind == "Frost"@ || n.kind == "FrostedRect"@ {
        assert(shows_frost(fl, n, r, c));
    } else if n.kind == "Text"@ {
        assert(shows_text(fl, n, r, c));
    }
}

/// How many of the first `k` nodes of an order are drawn.
spec fn drawings(fl: Unit, t: Tree, l: LayoutModel, k: int) -> nat
    decreases k,
{
    if k <= 0 {
        0
    } else {
        drawings(fl, t, l, k - 1) + (if drawn_at(fl, t, l, k - 1) is Some {
            1nat
        } else {
            0nat
        })
    }
}

proof fn lemma_scene(fl: Unit, t: Tree, l: LayoutModel, k: int)
    requires
        0 <= k,
    ensures
        scene_of(fl, t, l, k).len() == drawings(fl, t, l, k),
        forall|i: int|
            0 <= i < k && drawn_at(fl, t, l, i) is Some ==> {
                &&& (#[trigger] drawings(fl, t, l, i)) < scene_of(fl, t, l, k).len()
                &&& Some(scene_of(fl, t, l, k)[drawings(fl, t, l, i) as int]) == drawn_at(fl, t, l, i)
            },
    decreases k,
{
    if k > 0 {
        lemma_scene(fl, t, l, k - 1);
    }
}

proof fn lemma_drawings_grow(fl: Unit, t: Tree, l: LayoutModel, i: int, j: int)
    requires
        0 <= i < j,
        drawn_at(fl, t, l, i) is Some,
    ensures
        drawings(fl, t, l, i) < drawings(fl, t, l, j),
    decreases j,
{
    if i + 1 < j {
        lemma_drawings_grow(fl, t, l, i, j - 1);
    }
}

/// The node at place `i` of the order is drawn at place `at` of the scene.
pub open spec fn drawn_in(fl: Unit, t: Tree, l: LayoutModel, scene: Seq<CmdModel>, i: int, at: int) -> bool {
    let id = l.order[i];
    &&& 0 <= at < scene.len()
    &&& t.nodes.dom().contains(id)
    &&& l.rects.dom().contains(id)
    &&& shows(
        fl,
        t.nodes[id],
        l.rects[id],
        if t.root == Some(id) && i == 0 {
            Some(l.viewport)
        } else {
            None
        },
        Some(scene[at]),
    )
}

/// The node has something to be drawn: a background where it lays children out, or a drawing of its
/// own.
pub open spec fn visible(n: NodeModel) -> bool {
    ||| holds_boxes(n.kind) && exists|color: u32| #[trigger] colored(n, "background"@, color)
    ||| n.kind == "Rect"@
    ||| n.kind == "Frost"@
    ||| n.kind == "FrostedRect"@
    ||| n.kind == "Text"@
}

/// Every node that was laid out and has something to be drawn is drawn, once, in its own rectangle and
/// with its own properties, and what stands later in the order of the layout is drawn later, that is
/// on top. This says it of two places of the order.
pub proof fn law_scene_shows_every_node(fl: Unit, t: Tree, l: LayoutModel, i: int, j: int)
    requires
        0 <= i < j < l.order.len(),
    ensures
        ({
            let scene = scene_of(fl, t, l, l.order.len() as int);
            let there = |k: int| t.nodes.dom().contains(l.order[k]) && l.rects.dom().contains(l.order[k]) && visible(
                t.nodes[l.order[k]],
            );
            &&& there(i) ==> exists|a: int| #[trigger] drawn_in(fl, t, l, scene, i, a)
            &&& there(j) ==> exists|b: int| #[trigger] drawn_in(fl, t, l, scene, j, b)
            &&& there(i) && there(j) ==> exists|a: int, b: int|
                a < b && #[trigger] drawn_in(fl, t, l, scene, i, a) && #[trigger] drawn_in(fl, t, l, scene, j, b)
        }),
{
    let n = l.order.len() as int;
    let scene = scene_of(fl, t, l, n);
    lemma_scene(fl, t, l, n);
    lemma_visible(fl, t, l, i);
    lemma_visible(fl, t, l, j);
    let a = drawings(fl, t, l, i) as int;
    let b = drawings(fl, t, l, j) as int;
    if drawn_at(fl, t, l, i) is Some {
        lemma_drawings_grow(fl, t, l, i, j);
        assert(drawn_in(fl, t, l, scene, i, a));
    }
    if drawn_at(fl, t, l, j) is Some {
        assert(drawn_in(fl, t, l, scene, j, b));
    }
}

proof fn lemma_visible(fl: Unit, t: Tree, l: LayoutModel, i: int)
    ensures
        ({
            let id = l.order[i];
            let page = if t.root == Some(id) && i == 0 {
                Some(l.viewport)
            } else {
                None
            };
            &&& drawn_at(fl, t, l, i) is Some <==> t.nodes.dom().contains(id) && l.rects.dom().contains(id) && visible(t.nodes[id])
            &&& drawn_at(fl, t, l, i) is Some ==> shows(fl, t.nodes[id], l.rects[id], page, drawn_at(fl, t, l, i))
        }),
{
    let id = l.order[i];
    let page = if t.root == Some(id) && i == 0 {
        Some(l.viewport)
    } else {
        None
    };
    law_node_is_drawn(fl, t.nodes[id], l.rects[id], page);
    lemma_kinds(t.nodes[id].kind);
    lemma_color(t.nodes[id], "background"@);
}

/// The first node of an order is drawn too, where it is the only one as well; and the scene has one
/// command for each node that is there, was laid out and has something to be drawn, and no other: each
/// command is the drawing of one of them.
pub proof fn law_scene_shows_nothing_else(fl: Unit, t: Tree, l: LayoutModel, i: int, at: int)
    ensures
        ({
            let scene = scene_of(fl, t, l, l.order.len() as int);
            &&& 0 <= i < l.order.len() && t.nodes.dom().contains(l.order[i]) && l.rects.dom().contains(l.order[i]) && visible(
                t.nodes[l.order[i]],
            ) ==> exists|a: int| #[trigger] drawn_in(fl, t, l, scene, i, a)
            &&& 0 <= at < scene.len() ==> exists|k: int|
                0 <= k < l.order.len() && visible(t.nodes[l.order[k]]) && #[trigger] drawn_in(fl, t, l, scene, k, at)
            &&& scene.len() <= l.order.len()
        }),
{
    let n = l.order.len() as int;
    let scene = scene_of(fl, t, l, n);
    lemma_scene(fl, t, l, n);
    crate::layout_law::law_scene_is_in_painters_order(fl, t, l, n, n);
    if 0 <= i < n {
        lemma_visible(fl, t, l, i);
        if drawn_at(fl, t, l, i) is Some {
            assert(drawn_in(fl, t, l, scene, i, drawings(fl, t, l, i) as int));
        }
    }
    if 0 <= at < scene.len() {
        let k = lemma_source(fl, t, l, n, at);
        lemma_visible(fl, t, l, k);
        assert(drawings(fl, t, l, k) == at);
        assert(drawn_in(fl, t, l, scene, k, at));
    }
}

proof fn lemma_source(fl: Unit, t: Tree, l: LayoutModel, n: int, at: int) -> (k: int)
    requires
        0 <= n,
        0 <= at < drawings(fl, t, l, n),
    ensures
        0 <= k < n,
        drawn_at(fl, t, l, k) is Some,
        drawings(fl, t, l, k) == at,
    decreases n,
{
    if at < drawings(fl, t, l, n - 1) {
        lemma_source(fl, t, l, n - 1, at)
    } else {
        n - 1
    }
}

} // verus!
