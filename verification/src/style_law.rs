//! What a layout engine is told of every node, by the properties that the node has.
use vstd::prelude::*;

use crate::float::{FloatQuery, Unit};
use crate::layout::{
    intrinsic, plan_of, planned, planned_all, px_at, style_of, Align, BoxStyle, Flow, Justify, Page, PlanModel, Planned,
};
use crate::node::{NodeId, NodeModel};
use crate::place_law::{holds_boxes, said};
use crate::value::ValueModel;

verus! {

/// What a node has under a key, as a length: nothing where it has nothing there or something that is
/// no number, a length as it stands, an integer or a double rounded to a single.
#[verifier::opaque]
pub open spec fn length_under(fl: Unit, n: NodeModel, key: Seq<char>, r: Option<u32>) -> bool {
    &&& !n.props.dom().contains(key) ==> r is None
    &&& n.props.dom().contains(key) ==> {
        &&& n.props[key] matches ValueModel::Px(v) ==> r == Some(v)
        &&& n.props[key] matches ValueModel::Int(v) ==> r == Some(said(fl, FloatQuery::FromIntSingle { value: v }))
        &&& n.props[key] matches ValueModel::Float(v) ==> r == Some(said(fl, FloatQuery::Narrow { double: v }))
        &&& (n.props[key] is Text || n.props[key] is Bool || n.props[key] is Color || n.props[key] is List) ==> r is None
    }
}

/// The node has the text under the key.
pub open spec fn says(n: NodeModel, key: Seq<char>, word: Seq<char>) -> bool {
    n.props.dom().contains(key) && n.props[key] == ValueModel::Text(word)
}

/// A box is the plan itself or one of those in it, at any depth.
pub open spec fn has_box(p: PlanModel, q: PlanModel) -> bool
    decreases p,
{
    q == p || exists|i: int| 0 <= i < p.children.len() && has_box(#[trigger] p.children[i], q)
}

/// The box of a node that is not the root has the width and height that the node asks for; that of
/// the root has the size of the viewport, whatever it asks for.
pub open spec fn sized_as_asked(g: Page, n: NodeModel, b: BoxStyle, is_root: bool) -> bool {
    if is_root {
        b.width == Some(g.viewport.0) && b.height == Some(g.viewport.1)
    } else {
        length_under(g.fl, n, "width"@, b.width) && length_under(g.fl, n, "height"@, b.height)
    }
}

/// The box takes part in what is left over as the node asks for, and not where it asks for nothing.
pub open spec fn grows_as_asked(fl: Unit, n: NodeModel, b: BoxStyle) -> bool {
    &&& length_under(fl, n, "grow"@, Some(b.grow)) || (length_under(fl, n, "grow"@, None) && b.grow == 0)
}

/// The box stands out of the flow exactly where the node says so, at the distances it gives.
pub open spec fn stands_out_as_asked(fl: Unit, n: NodeModel, b: BoxStyle) -> bool {
    &&& b.inset is Some <==> says(n, "position"@, "absolute"@)
    &&& b.inset matches Some(i) ==> {
        &&& length_under(fl, n, "left"@, i.left)
        &&& length_under(fl, n, "top"@, i.top)
        &&& length_under(fl, n, "right"@, i.right)
        &&& length_under(fl, n, "bottom"@, i.bottom)
    }
}

/// A node that lays children out does so in the direction of its kind, with the padding and the gap
/// that it asks for, the gap under either of its names, and where it says along and across; no other
/// node does anything of this.
pub open spec fn flows_as_asked(fl: Unit, n: NodeModel, b: BoxStyle) -> bool {
    &&& n.kind == "Stack"@ ==> b.flow == Flow::Column
    &&& n.kind == "Column"@ ==> b.flow == Flow::Column
    &&& n.kind == "Row"@ ==> b.flow == Flow::Row
    &&& n.kind == "Grid"@ ==> b.flow == Flow::Wrap
    &&& !holds_boxes(n.kind) ==> b.flow == Flow::Leaf && b.padding is None && b.gap is None && b.align is None && b.justify is None
    &&& holds_boxes(n.kind) ==> {
        &&& length_under(fl, n, "padding"@, b.padding)
        &&& length_under(fl, n, "gap"@, b.gap) || (length_under(fl, n, "gap"@, None) && length_under(fl, n, "spacing"@, b.gap))
        &&& aligned_as_asked(n, b)
    }
}

/// Where children stand across and along, by the words for it.
pub open spec fn aligned_as_asked(n: NodeModel, b: BoxStyle) -> bool {
    &&& says(n, "align"@, "start"@) <==> b.align == Some(Align::Start)
    &&& says(n, "align"@, "center"@) <==> b.align == Some(Align::Center)
    &&& says(n, "align"@, "end"@) <==> b.align == Some(Align::End)
    &&& says(n, "align"@, "stretch"@) <==> b.align == Some(Align::Stretch)
    &&& says(n, "justify"@, "start"@) <==> b.justify == Some(Justify::Start)
    &&& says(n, "justify"@, "center"@) <==> b.justify == Some(Justify::Center)
    &&& says(n, "justify"@, "end"@) <==> b.justify == Some(Justify::End)
    &&& says(n, "justify"@, "stretch"@) <==> b.justify == Some(Justify::Stretch)
    &&& says(n, "justify"@, "space-between"@) <==> b.justify == Some(Justify::SpaceBetween)
    &&& says(n, "justify"@, "space-around"@) <==> b.justify == Some(Justify::SpaceAround)
    &&& says(n, "justify"@, "space-evenly"@) <==> b.justify == Some(Justify::SpaceEvenly)
}

/// A text has a size of its own, which grows with its letters and with the size of its type; nothing
/// else has one. An empty text is as wide as one letter. The size of type that a node does not name
/// is 16; a letter is as wide as six tenths of it, and a line as high as one and four tenths.
pub open spec fn measured(fl: Unit, n: NodeModel, own: Option<(u32, u32)>) -> bool {
    &&& own is Some <==> n.kind == "Text"@
    &&& own matches Some(m) ==> exists|size: u32| #[trigger] typed_in(fl, n, m, size)
}

/// A text of a size of type has a size.
pub open spec fn typed_in(fl: Unit, n: NodeModel, m: (u32, u32), size: u32) -> bool {
    &&& length_under(fl, n, "size"@, Some(size)) || (length_under(fl, n, "size"@, None) && size == 0x4180_0000)
    &&& m.1 == said(fl, FloatQuery::MulSingle { x: size, y: 0x3FB3_3333 })
    &&& if n.props.dom().contains("content"@) && n.props["content"@] is Text && (n.props["content"@]->Text_0).len() > 0 {
        (n.props["content"@]->Text_0).len() <= 0x7FFF_FFFF ==> m.0 == wide(
            fl,
            size,
            (n.props["content"@]->Text_0).len() as i64,
        )
    } else {
        m.0 == wide(fl, size, 1)
    }
}

/// The width of so many letters of a size.
pub open spec fn wide(fl: Unit, size: u32, many: i64) -> u32 {
    said(
        fl,
        FloatQuery::MulSingle {
            x: said(fl, FloatQuery::MulSingle { x: size, y: 0x3F19_999A }),
            y: said(fl, FloatQuery::FromIntSingle { value: many }),
        },
    )
}

/// The box says of the node what the node asks for.
pub open spec fn as_asked(g: Page, q: PlanModel, is_root: bool) -> bool {
    &&& g.tree.nodes.dom().contains(q.id)
    &&& sized_as_asked(g, g.tree.nodes[q.id], q.style, is_root)
    &&& grows_as_asked(g.fl, g.tree.nodes[q.id], q.style)
    &&& stands_out_as_asked(g.fl, g.tree.nodes[q.id], q.style)
    &&& flows_as_asked(g.fl, g.tree.nodes[q.id], q.style)
    &&& measured(g.fl, g.tree.nodes[q.id], q.text)
}

proof fn lemma_words()
    ensures
        "start"@ != "center"@,
        "start"@ != "end"@,
        "start"@ != "stretch"@,
        "center"@ != "end"@,
        "center"@ != "stretch"@,
        "end"@ != "stretch"@,
        "start"@ != "space-between"@,
        "start"@ != "space-around"@,
        "start"@ != "space-evenly"@,
        "center"@ != "space-between"@,
        "center"@ != "space-around"@,
        "center"@ != "space-evenly"@,
        "end"@ != "space-between"@,
        "end"@ != "space-around"@,
        "end"@ != "space-evenly"@,
        "stretch"@ != "space-between"@,
        "stretch"@ != "space-around"@,
        "stretch"@ != "space-evenly"@,
        "space-between"@ != "space-around"@,
        "space-between"@ != "space-evenly"@,
        "space-around"@ != "space-evenly"@,
        "Stack"@ != "Row"@,
        "Stack"@ != "Grid"@,
        "Column"@ != "Row"@,
        "Column"@ != "Grid"@,
        "Row"@ != "Grid"@,
{
    reveal_strlit("start");
    reveal_strlit("center");
    reveal_strlit("end");
    reveal_strlit("stretch");
    reveal_strlit("space-between");
    reveal_strlit("space-around");
    reveal_strlit("space-evenly");
    reveal_strlit("Stack");
    reveal_strlit("Column");
    reveal_strlit("Row");
    reveal_strlit("Grid");
    assert("start"@[0] == 's' && "center"@[0] == 'c' && "end"@[0] == 'e');
    assert("start"@.len() == 5 && "stretch"@.len() == 7 && "space-between"@.len() == 13 && "space-around"@.len() == 12
        && "space-evenly"@.len() == 12);
    assert("space-around"@[6] == 'a' && "space-evenly"@[6] == 'e');
    assert("Stack"@[0] == 'S' && "Column"@[0] == 'C' && "Row"@[0] == 'R' && "Grid"@[0] == 'G');
}

pub proof fn lemma_length(fl: Unit, n: NodeModel, key: Seq<char>)
    ensures
        length_under(fl, n, key, px_at(fl, n, key)),
{
    reveal(length_under);
}

proof fn lemma_style(g: Page, n: NodeModel, is_root: bool)
    ensures
        ({
            let b = style_of(g.fl, n, g.viewport, is_root);
            &&& sized_as_asked(g, n, b, is_root)
            &&& grows_as_asked(g.fl, n, b)
            &&& stands_out_as_asked(g.fl, n, b)
        }),
{
    lemma_length(g.fl, n, "width"@);
    lemma_length(g.fl, n, "height"@);
    lemma_length(g.fl, n, "grow"@);
    lemma_length(g.fl, n, "left"@);
    lemma_length(g.fl, n, "top"@);
    lemma_length(g.fl, n, "right"@);
    lemma_length(g.fl, n, "bottom"@);
}

proof fn lemma_flow(g: Page, n: NodeModel, is_root: bool)
    ensures
        flows_as_asked(g.fl, n, style_of(g.fl, n, g.viewport, is_root)),
{
    lemma_words();
    lemma_length(g.fl, n, "padding"@);
    lemma_length(g.fl, n, "gap"@);
    lemma_length(g.fl, n, "spacing"@);
    let b = style_of(g.fl, n, g.viewport, is_root);
    assert(holds_boxes(n.kind) ==> aligned_as_asked(n, b));
}

proof fn lemma_measured(fl: Unit, n: NodeModel)
    ensures
        exists|size: u32| #[trigger] typed_in(fl, n, intrinsic(fl, n), size),
{
    lemma_length(fl, n, "size"@);
    let size = match px_at(fl, n, "size"@) {
        Some(s) => s,
        None => 0x4180_0000,
    };
    assert(typed_in(fl, n, intrinsic(fl, n), size));
}

proof fn lemma_box(g: Page, id: NodeId, is_root: bool, n: nat)
    ensures
        planned(g, id, is_root, n) matches Planned::Is(p) ==> p.id == id && as_asked(g, p, is_root),
{
    match planned(g, id, is_root, n) {
        Planned::Is(p) => {
            let node = g.tree.nodes[id];
            lemma_style(g, node, is_root);
            lemma_flow(g, node, is_root);
            lemma_measured(g.fl, node);
            assert(p.style == style_of(g.fl, node, g.viewport, is_root));
            assert(node.kind == "Text"@ ==> p.text == Some(intrinsic(g.fl, node)));
            assert(node.kind != "Text"@ ==> p.text is None);
            match p.text {
                Some(m) => {
                    assert(m == intrinsic(g.fl, node));
                },
                None => {},
            }
            assert(measured(g.fl, node, p.text));
        },
        _ => {},
    }
}

proof fn lemma_boxes(g: Page, id: NodeId, is_root: bool, n: nat, q: PlanModel)
    ensures
        planned(g, id, is_root, n) matches Planned::Is(p) ==> (has_box(p, q) ==> as_asked(g, q, is_root && q == p)),
    decreases n, 0int, 0int,
{
    lemma_box(g, id, is_root, n);
    match planned(g, id, is_root, n) {
        Planned::Is(p) => {
            if has_box(p, q) && q != p {
                let kids = g.tree.nodes[id].children;
                let none = Seq::<PlanModel>::empty();
                lemma_boxes_all(g, kids, 0, (n - 1) as nat, none, q);
                let i = choose|i: int| 0 <= i < p.children.len() && has_box(#[trigger] p.children[i], q);
                assert(has_box(p.children[i], q));
            }
        },
        _ => {},
    }
}

proof fn lemma_boxes_all(g: Page, kids: Seq<NodeId>, i: int, n: nat, acc: Seq<PlanModel>, q: PlanModel)
    requires
        forall|k: int| 0 <= k < acc.len() ==> (has_box(#[trigger] acc[k], q) ==> as_asked(g, q, false)),
    ensures
        planned_all(g, kids, i, n, acc) matches Some(r) ==> forall|k: int|
            0 <= k < r.len() ==> (has_box(#[trigger] r[k], q) ==> as_asked(g, q, false)),
    decreases n, 1int, kids.len() - i,
{
    if 0 <= i < kids.len() {
        lemma_boxes(g, kids[i], false, n, q);
        match planned(g, kids[i], false, n) {
            Planned::Missing => {
                lemma_boxes_all(g, kids, i + 1, n, acc, q);
            },
            Planned::Deeper => {},
            Planned::Is(p) => {
                lemma_boxes_all(g, kids, i + 1, n, acc.push(p), q);
            },
        }
    }
}

/// Every box that the engine is given says of its node what the node asks for: its size, or the size
/// of the viewport for the root; how it grows and stands out of the flow; how it lays out what is in
/// it; and how large a text is.
pub proof fn law_boxes_are_as_asked(g: Page, p: PlanModel, q: PlanModel)
    requires
        plan_of(g) == Planned::Is(p),
        has_box(p, q),
    ensures
        as_asked(g, q, q == p),
        g.tree.root == Some(p.id),
{
    let root = g.tree.root->0;
    let n = choose|n: u64| !(#[trigger] planned(g, root, true, n as nat) is Deeper);
    lemma_boxes(g, root, true, n as nat, q);
    lemma_box(g, root, true, n as nat);
}

} // verus!
