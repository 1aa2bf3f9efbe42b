//! What holds of every layout and every scene.
use vstd::prelude::*;

use crate::a11y::{described, tree_of, Role, Shown, ROOT_ID};
use crate::float::Unit;
use crate::ir::Tree;
use crate::layout::{
    arranged, hit, may_lay_out, no_layout, placed, plan_of, topmost, with_rects, ComputedRect, Frame, LayoutModel, Page,
    Plan, Planned,
};
use crate::node::{NodeId, NodeModel};
use crate::paint::scene_of;
use crate::value::ValueModel;

verus! {

/// Every node in the order has a rectangle, and every node with a rectangle is in the order.
pub open spec fn ordered(l: LayoutModel) -> bool {
    &&& forall|i: int| 0 <= i < l.order.len() ==> l.rects.dom().contains(#[trigger] l.order[i])
    &&& forall|id: NodeId| #[trigger] l.rects.dom().contains(id) ==> l.order.contains(id)
}

proof fn lemma_rects_ordered(l: LayoutModel, s: Seq<(NodeId, ComputedRect)>)
    requires
        ordered(l),
    ensures
        ordered(with_rects(l, s)),
        with_rects(l, s).viewport == l.viewport,
    decreases s.len(),
{
    if s.len() > 0 {
        let m = with_rects(l, s.drop_last());
        let r = with_rects(l, s);
        lemma_rects_ordered(l, s.drop_last());
        assert forall|i: int| 0 <= i < r.order.len() implies r.rects.dom().contains(#[trigger] r.order[i]) by {
            if i < m.order.len() {
                assert(r.order[i] == m.order[i]);
            }
        }
        assert forall|id: NodeId| #[trigger] r.rects.dom().contains(id) implies r.order.contains(id) by {
            if id == s.last().0 {
                assert(r.order[m.order.len() as int] == id);
            } else {
                assert(m.rects.dom().contains(id));
                let i = choose|i: int| 0 <= i < m.order.len() && m.order[i] == id;
                assert(r.order[i] == id);
            }
        }
    }
}

/// Whatever the engine answers, the order and the rectangles of a layout speak of the same nodes,
/// and the layout is for the viewport that was asked for.
pub proof fn law_layout_is_ordered<E: Fn(&Plan) -> Option<Vec<Frame>>>(e: E, g: Page, l: LayoutModel)
    requires
        may_lay_out(e, g, l),
    ensures
        ordered(l),
        l.viewport == g.viewport,
{
    assert(ordered(no_layout(g.viewport)));
    match plan_of(g) {
        Planned::Is(m) => {
            let (p, f) = choose|p: &Plan, f: Option<Vec<Frame>>| #[trigger]
                call_ensures(e, (p,), f) && p@ == m && l == arranged(
                    g.fl,
                    m,
                    match f {
                        Some(v) => Some(v@),
                        None => None,
                    },
                    g.viewport,
                );
            match f {
                Some(v) => {
                    lemma_rects_ordered(no_layout(g.viewport), placed(g.fl, m, v@, 0, (0, 0)).0);
                },
                None => {},
            }
        },
        _ => {},
    }
}

/// A document without a root has an empty layout and an empty scene.
pub proof fn law_no_root_is_blank<E: Fn(&Plan) -> Option<Vec<Frame>>>(e: E, g: Page, l: LayoutModel)
    requires
        g.tree.root is None,
        may_lay_out(e, g, l),
    ensures
        l.order.len() == 0,
        scene_of(g.fl, g.tree, l, l.order.len() as int).len() == 0,
{
}

/// What is hit is the topmost node there: it is under the point, and nothing painted after it is.
/// Where nothing is hit, no node is under the point.
pub proof fn law_hit_is_topmost(fl: Unit, l: LayoutModel, p: (u32, u32), k: int)
    requires
        0 <= k <= l.order.len(),
    ensures
        match topmost(fl, l, p, k) {
            Some(id) => exists|i: int|
                0 <= i < k && l.order[i] == id && #[trigger] hit(fl, l, p, i) && forall|j: int|
                    i < j < k ==> !#[trigger] hit(fl, l, p, j),
            None => forall|j: int| 0 <= j < k ==> !#[trigger] hit(fl, l, p, j),
        },
    decreases k,
{
    if k > 0 {
        if hit(fl, l, p, k - 1) {
            assert(l.order[k - 1] == topmost(fl, l, p, k)->0);
        } else {
            law_hit_is_topmost(fl, l, p, k - 1);
            match topmost(fl, l, p, k - 1) {
                Some(id) => {
                    let i = choose|i: int|
                        0 <= i < k - 1 && l.order[i] == id && #[trigger] hit(fl, l, p, i) && forall|j: int|
                            i < j < k - 1 ==> !#[trigger] hit(fl, l, p, j);
                    assert(forall|j: int| i < j < k ==> !#[trigger] hit(fl, l, p, j));
                },
                None => {},
            }
        }
    }
}

/// A scene is painted in layout order: the commands of the first nodes come first, and a node
/// draws at most one.
pub proof fn law_scene_is_in_painters_order(fl: Unit, t: Tree, l: LayoutModel, a: int, b: int)
    requires
        0 <= a <= b <= l.order.len(),
    ensures
        scene_of(fl, t, l, a).len() <= a,
        scene_of(fl, t, l, a).len() <= scene_of(fl, t, l, b).len(),
        scene_of(fl, t, l, b).take(scene_of(fl, t, l, a).len() as int) == scene_of(fl, t, l, a),
    decreases b,
{
    if a < b {
        law_scene_is_in_painters_order(fl, t, l, a, b - 1);
        let s = scene_of(fl, t, l, b - 1);
        let r = scene_of(fl, t, l, b);
        let n = scene_of(fl, t, l, a).len() as int;
        assert(r.take(n) =~= s.take(n));
    } else if a > 0 {
        law_scene_is_in_painters_order(fl, t, l, a - 1, b - 1);
        assert(scene_of(fl, t, l, b).take(scene_of(fl, t, l, a).len() as int) =~= scene_of(fl, t, l, a));
    } else {
        assert(scene_of(fl, t, l, b).take(0) =~= scene_of(fl, t, l, a));
    }
}

/// A button with a label and a callback for clicks can be named and pressed by assistive
/// technology.
pub proof fn law_labelled_button_is_usable(fl: Unit, n: NodeModel, r: ComputedRect, children: Seq<u64>, label: Seq<char>)
    requires
        n.kind == "Button"@,
        n.props.dom().contains("label"@),
        n.props["label"@] == ValueModel::Text(label),
        n.callbacks.dom().contains("click"@),
    ensures
        described(fl, n, r, children).role == Role::Button,
        described(fl, n, r, children).label == Some(label),
        described(fl, n, r, children).actionable,
{
    reveal_strlit("Button");
    reveal_strlit("Text");
    assert("Button"@.len() != "Text"@.len());
}

/// The accessibility tree ends in the window, which holds the document's root or nothing.
pub proof fn law_tree_ends_in_window(g: Shown)
    ensures
        tree_of(g).len() > 0,
        tree_of(g).last().0 == ROOT_ID,
        tree_of(g).last().1.role == Role::Window,
        tree_of(g).last().1.children.len() <= 1,
        g.tree.root is None ==> tree_of(g).len() == 1,
{
}

} // verus!
