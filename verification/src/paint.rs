//! Painting: from a document and its layout to a scene.
use vstd::prelude::*;

use crate::float::{steady, unit, FloatOp, Unit};
use crate::ir::{Document, Tree};
use crate::layout::{
    color_at, color_of, container, either, is_container, layout, may_lay_out, plannable, px_at, px_of,
    text_at, text_of, ComputedRect, Frame, Layout, LayoutModel, Page, Plan, TEXT_SIZE,
};
use crate::node::{Node, NodeModel};
use crate::scene::{cmd_models, CmdModel, DrawCmd, Scene};
use crate::text::same;

verus! {

/// What is drawn in no colour of its own: opaque white.
pub const WHITE: u32 = 0xFFFF_FFFF;

/// The tint of a frosted panel that names none: thin white.
pub const FROST: u32 = 0xFFFF_FF40;

/// The blur of a frosted panel that names none, 12.
pub const FROST_BLUR: u32 = 0x4140_0000;

/// The radius of a node's corners.
pub open spec fn corner(fl: Unit, n: NodeModel) -> u32 {
    match either(px_at(fl, n, "corner_radius"@), px_at(fl, n, "radius"@)) {
        Some(r) => r,
        None => 0,
    }
}

/// The value that is there, or another.
pub open spec fn or_else(a: Option<u32>, b: u32) -> u32 {
    match a {
        Some(x) => x,
        None => b,
    }
}

/// A rectangle that is not rotated.
pub open spec fn rect_cmd(r: ComputedRect, color: u32, corner_radius: u32) -> CmdModel {
    CmdModel::FilledRect { x: r.x, y: r.y, w: r.w, h: r.h, color, corner_radius, rotation: 0 }
}

/// What a node is drawn as in its rectangle. A container draws its background, which fills the
/// viewport where `page` is set; a node of any other kind without a drawing of its own is not
/// drawn.
pub open spec fn drawn(fl: Unit, n: NodeModel, rect: ComputedRect, page: Option<(u32, u32)>) -> Option<CmdModel> {
    if container(n.kind) {
        match color_at(n, "background"@) {
            Some(color) => Some(
                match page {
                    Some(v) => rect_cmd(ComputedRect { x: 0, y: 0, w: v.0, h: v.1 }, color, 0),
                    None => rect_cmd(rect, color, corner(fl, n)),
                },
            ),
            None => None,
        }
    } else if n.kind == "Rect"@ {
        Some(rect_cmd(rect, or_else(color_at(n, "color"@), WHITE), corner(fl, n)))
    } else if n.kind == "Frost"@ || n.kind == "FrostedRect"@ {
        Some(
            CmdModel::FrostedRect {
                x: rect.x,
                y: rect.y,
                w: rect.w,
                h: rect.h,
                corner_radius: corner(fl, n),
                tint: or_else(either(color_at(n, "tint"@), color_at(n, "color"@)), FROST),
                blur_radius: or_else(
                    either(px_at(fl, n, "blur_radius"@), px_at(fl, n, "blur"@)),
                    FROST_BLUR,
                ),
            },
        )
    } else if n.kind == "Text"@ {
        Some(
            CmdModel::Text {
                x: rect.x,
                y: rect.y,
                content: match text_at(n, "content"@) {
                    Some(s) => s,
                    None => Seq::empty(),
                },
                size: or_else(px_at(fl, n, "size"@), TEXT_SIZE),
                color: or_else(color_at(n, "color"@), WHITE),
            },
        )
    } else {
        None
    }
}

/// What the node at place `i` of the order is drawn as.
pub open spec fn drawn_at(fl: Unit, t: Tree, l: LayoutModel, i: int) -> Option<CmdModel> {
    let id = l.order[i];
    if t.nodes.dom().contains(id) && l.rects.dom().contains(id) {
        drawn(
            fl,
            t.nodes[id],
            l.rects[id],
            if t.root == Some(id) && i == 0 {
                Some(l.viewport)
            } else {
                None
            },
        )
    } else {
        None
    }
}

/// The drawings of the first `n` nodes of the order.
pub open spec fn scene_of(fl: Unit, t: Tree, l: LayoutModel, n: int) -> Seq<CmdModel>
    decreases n,
{
    if n <= 0 {
        Seq::empty()
    } else {
        match drawn_at(fl, t, l, n - 1) {
            Some(c) => scene_of(fl, t, l, n - 1).push(c),
            None => scene_of(fl, t, l, n - 1),
        }
    }
}

fn corner_of<F: Fn(&FloatOp) -> Option<u64>>(node: &Node, fl: &F) -> (r: u32)
    requires
        steady(*fl),
    ensures
        r == corner(unit(*fl), node@),
{
    match px_of(node, "corner_radius", fl) {
        Some(x) => x,
        None => match px_of(node, "radius", fl) {
            Some(x) => x,
            None => 0,
        },
    }
}

fn draw<F: Fn(&FloatOp) -> Option<u64>>(
    node: &Node,
    rect: ComputedRect,
    page: Option<(u32, u32)>,
    fl: &F,
) -> (r: Option<DrawCmd>)
    requires
        steady(*fl),
    ensures
        match r {
            Some(c) => drawn(unit(*fl), node@, rect, page) == Some(c@),
            None => drawn(unit(*fl), node@, rect, page) is None,
        },
{
    let kind = node.kind.as_str();
    if is_container(kind) {
        match color_of(node, "background") {
            Some(color) => match page {
                Some(v) => Some(DrawCmd::filled_rect(0, 0, v.0, v.1, color, 0)),
                None => Some(
                    DrawCmd::filled_rect(rect.x, rect.y, rect.w, rect.h, color, corner_of(node, fl)),
                ),
            },
            None => None,
        }
    } else if same(kind, "Rect") {
        let color: u32 = match color_of(node, "color") {
            Some(c) => c,
            None => WHITE,
        };
        Some(DrawCmd::filled_rect(rect.x, rect.y, rect.w, rect.h, color, corner_of(node, fl)))
    } else if same(kind, "Frost") || same(kind, "FrostedRect") {
        let tint: u32 = match color_of(node, "tint") {
            Some(c) => c,
            None => match color_of(node, "color") {
                Some(c) => c,
                None => FROST,
            },
        };
        let blur_radius: u32 = match px_of(node, "blur_radius", fl) {
            Some(x) => x,
            None => match px_of(node, "blur", fl) {
                Some(x) => x,
                None => FROST_BLUR,
            },
        };
        Some(
            DrawCmd::FrostedRect {
                x: rect.x,
                y: rect.y,
                w: rect.w,
                h: rect.h,
                corner_radius: corner_of(node, fl),
                tint,
                blur_radius,
            },
        )
    } else if same(kind, "Text") {
        let content = match text_of(node, "content") {
            Some(s) => s,
            None => {
                let s = String::new();
                assert(s@ =~= Seq::<char>::empty());
                s
            },
        };
        let size: u32 = match px_of(node, "size", fl) {
            Some(x) => x,
            None => TEXT_SIZE,
        };
        let color: u32 = match color_of(node, "color") {
            Some(c) => c,
            None => WHITE,
        };
        Some(DrawCmd::Text { x: rect.x, y: rect.y, content, size, color })
    } else {
        None
    }
}

/// The scene of a document that was laid out: the drawings of its nodes in painter's order.
pub fn paint<F: Fn(&FloatOp) -> Option<u64>>(doc: &Document, layout: &Layout, fl: &F) -> (r: Scene)
    requires
        steady(*fl),
    ensures
        cmd_models(r@) == scene_of(unit(*fl), doc@.tree, layout@, layout@.order.len() as int),
{
    let mut scene: Scene = Vec::new();
    let root = doc.root();
    let order = layout.order();
    let mut i: usize = 0;
    assert(cmd_models(scene@) =~= Seq::empty());
    while i < order.len()
        invariant
            steady(*fl),
            root == doc@.tree.root,
            order@ == layout@.order,
            i <= order@.len(),
            cmd_models(scene@) == scene_of(unit(*fl), doc@.tree, layout@, i as int),
        decreases order@.len() - i,
    {
        let id = order[i];
        let is_root = match root {
            Some(x) => x.0 == id.0,
            None => false,
        };
        let page = if is_root && i == 0 {
            Some(layout.viewport())
        } else {
            None
        };
        let ghost was = cmd_models(scene@);
        match (doc.get(id), layout.rect(id)) {
            (Some(node), Some(rect)) => match draw(node, rect, page, fl) {
                Some(c) => {
                    let ghost m = c@;
                    scene.push(c);
                    assert(cmd_models(scene@) =~= was.push(m));
                },
                None => {},
            },
            _ => {},
        }
        i += 1;
    }
    scene
}

/// The scene of a document in a viewport: its layout, painted.
pub fn lower<F: Fn(&FloatOp) -> Option<u64>, E: Fn(&Plan) -> Option<Vec<Frame>>>(
    doc: &Document,
    viewport: (u32, u32),
    fl: &F,
    engine: &E,
) -> (r: Scene)
    requires
        steady(*fl),
        forall|p: &Plan| #[trigger] call_requires(*engine, (p,)),
        plannable(Page { tree: doc@.tree, viewport, fl: unit(*fl) }),
    ensures
        exists|l: LayoutModel| #[trigger]
            may_lay_out(*engine, Page { tree: doc@.tree, viewport, fl: unit(*fl) }, l) && cmd_models(r@)
                == scene_of(unit(*fl), doc@.tree, l, l.order.len() as int),
{
    let l = layout(doc, viewport, fl, engine);
    paint(doc, &l, fl)
}

} // verus!
