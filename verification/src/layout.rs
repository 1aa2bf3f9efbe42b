//! Layout: from a document to the rectangle of every node. The document becomes a plan of boxes
//! with styles, a layout engine gives every box its frame, and the frames become rectangles in
//! painter's order. Lengths are singles by their bits.
use std::collections::HashMap;
use vstd::prelude::*;

use crate::float::{
    add32, at_most_single, int32, le32, less_single, lt32, mul32, narrow, narrow32, of_int, product,
    steady, sum, unit, FloatOp, Unit,
};
use crate::ir::{Document, Tree};
use crate::node::{Node, NodeId, NodeModel};
use crate::text::{chars_of, copy, same};
use crate::value::{Value, ValueModel};

verus! {

/// The size of a text that names none, 16.
pub const TEXT_SIZE: u32 = 0x4180_0000;

/// The width of a letter by the size of its text, six tenths.
pub const LETTER: u32 = 0x3F19_999A;

/// The height of a line by the size of its text, one and four tenths.
pub const LINE: u32 = 0x3FB3_3333;

/// The colour under `key`.
pub open spec fn color_at(n: NodeModel, key: Seq<char>) -> Option<u32> {
    if n.props.dom().contains(key) {
        match n.props[key] {
            ValueModel::Color(c) => Some(c),
            _ => None,
        }
    } else {
        None
    }
}

/// The number under `key` as a single.
pub open spec fn px_at(fl: Unit, n: NodeModel, key: Seq<char>) -> Option<u32> {
    if n.props.dom().contains(key) {
        match n.props[key] {
            ValueModel::Px(v) => Some(v),
            ValueModel::Int(v) => Some(int32(fl, v)),
            ValueModel::Float(v) => Some(narrow32(fl, v)),
            _ => None,
        }
    } else {
        None
    }
}

/// The text under `key`.
pub open spec fn text_at(n: NodeModel, key: Seq<char>) -> Option<Seq<char>> {
    if n.props.dom().contains(key) {
        match n.props[key] {
            ValueModel::Text(s) => Some(s),
            _ => None,
        }
    } else {
        None
    }
}

/// The colour under `key`.
pub fn color_of(node: &Node, key: &str) -> (r: Option<u32>)
    ensures
        r == color_at(node@, key@),
{
    match node.props.get(key) {
        Some(Value::Color(c)) => Some(*c),
        _ => None,
    }
}

/// The number under `key` as a single.
pub fn px_of<F: Fn(&FloatOp) -> Option<u64>>(node: &Node, key: &str, fl: &F) -> (r: Option<u32>)
    requires
        steady(*fl),
    ensures
        r == px_at(unit(*fl), node@, key@),
{
    match node.props.get(key) {
        Some(Value::Px(v)) => Some(*v),
        Some(Value::Int(v)) => Some(of_int(fl, *v)),
        Some(Value::Float(v)) => Some(narrow(fl, *v)),
        _ => None,
    }
}

/// The text under `key`.
pub fn text_of(node: &Node, key: &str) -> (r: Option<String>)
    ensures
        match r {
            Some(s) => text_at(node@, key@) == Some(s@),
            None => text_at(node@, key@) is None,
        },
{
    match node.props.get(key) {
        Some(Value::Text(s)) => Some(copy(s.as_str())),
        _ => None,
    }
}

/// The kinds that lay out children.
pub open spec fn container(kind: Seq<char>) -> bool {
    kind == "Stack"@ || kind == "Column"@ || kind == "Row"@ || kind == "Grid"@
}

/// `true` exactly for the kinds that lay out children.
pub fn is_container(kind: &str) -> (r: bool)
    ensures
        r == container(kind@),
{
    same(kind, "Stack") || same(kind, "Column") || same(kind, "Row") || same(kind, "Grid")
}

/// How many characters a text has, at least one.
pub open spec fn letters(s: Seq<char>) -> usize {
    if s.len() == 0 {
        1
    } else {
        s.len() as usize
    }
}

/// The size of a text that nothing constrains.
pub open spec fn intrinsic(fl: Unit, n: NodeModel) -> (u32, u32) {
    let content = match text_at(n, "content"@) {
        Some(s) => s,
        None => Seq::empty(),
    };
    let size = match px_at(fl, n, "size"@) {
        Some(s) => s,
        None => TEXT_SIZE,
    };
    (
        mul32(fl, mul32(fl, size, LETTER), int32(fl, letters(content) as i64)),
        mul32(fl, size, LINE),
    )
}

fn text_intrinsic_size<F: Fn(&FloatOp) -> Option<u64>>(node: &Node, fl: &F) -> (r: (u32, u32))
    requires
        steady(*fl),
    ensures
        r == intrinsic(unit(*fl), node@),
{
    let n: usize = match text_of(node, "content") {
        Some(s) => {
            let cs = chars_of(s.as_str());
            if cs.len() == 0 {
                1
            } else {
                cs.len()
            }
        },
        None => 1,
    };
    let size: u32 = match px_of(node, "size", fl) {
        Some(s) => s,
        None => TEXT_SIZE,
    };
    (product(fl, product(fl, size, LETTER), of_int(fl, n as i64)), product(fl, size, LINE))
}

/// How a box lays out its children.
#[derive(Debug, Clone, Copy, PartialEq, Eq, Structural)]
pub enum Flow {
    /// It has none.
    Leaf,
    Column,
    Row,
    /// A row that goes on in a new line.
    Wrap,
}

/// Where children stand across the flow.
#[derive(Debug, Clone, Copy, PartialEq, Eq, Structural)]
pub enum Align {
    Start,
    Center,
    End,
    Stretch,
}

/// Where children stand along the flow.
#[derive(Debug, Clone, Copy, PartialEq, Eq, Structural)]
pub enum Justify {
    Start,
    Center,
    End,
    Stretch,
    SpaceBetween,
    SpaceAround,
    SpaceEvenly,
}

/// How far a box that stands out of the flow is from the edges of its parent.
#[derive(Debug, Clone, Copy, PartialEq, Eq, Structural)]
pub struct Inset {
    pub left: Option<u32>,
    pub top: Option<u32>,
    pub right: Option<u32>,
    pub bottom: Option<u32>,
}

/// What a layout engine is told of a box.
#[derive(Debug, Clone, Copy, PartialEq, Eq, Structural)]
pub struct BoxStyle {
    /// A fixed width, where there is one.
    pub width: Option<u32>,
    /// A fixed height, where there is one.
    pub height: Option<u32>,
    /// How much of the space left over the box takes.
    pub grow: u32,
    /// Set where the box stands out of the flow.
    pub inset: Option<Inset>,
    pub flow: Flow,
    pub padding: Option<u32>,
    /// The gap between children, both ways.
    pub gap: Option<u32>,
    pub align: Option<Align>,
    pub justify: Option<Justify>,
}

/// The alignment that a word names.
pub open spec fn align_named(s: Seq<char>) -> Option<Align> {
    if s == "start"@ {
        Some(Align::Start)
    } else if s == "center"@ {
        Some(Align::Center)
    } else if s == "end"@ {
        Some(Align::End)
    } else if s == "stretch"@ {
        Some(Align::Stretch)
    } else {
        None
    }
}

/// The justification that a word names.
pub open spec fn justify_named(s: Seq<char>) -> Option<Justify> {
    if s == "start"@ {
        Some(Justify::Start)
    } else if s == "center"@ {
        Some(Justify::Center)
    } else if s == "end"@ {
        Some(Justify::End)
    } else if s == "stretch"@ {
        Some(Justify::Stretch)
    } else if s == "space-between"@ {
        Some(Justify::SpaceBetween)
    } else if s == "space-around"@ {
        Some(Justify::SpaceAround)
    } else if s == "space-evenly"@ {
        Some(Justify::SpaceEvenly)
    } else {
        None
    }
}

fn align_items_of(s: &str) -> (r: Option<Align>)
    ensures
        r == align_named(s@),
{
    if same(s, "start") {
        Some(Align::Start)
    } else if same(s, "center") {
        Some(Align::Center)
    } else if same(s, "end") {
        Some(Align::End)
    } else if same(s, "stretch") {
        Some(Align::Stretch)
    } else {
        None
    }
}

fn justify_of(s: &str) -> (r: Option<Justify>)
    ensures
        r == justify_named(s@),
{
    if same(s, "start") {
        Some(Justify::Start)
    } else if same(s, "center") {
        Some(Justify::Center)
    } else if same(s, "end") {
        Some(Justify::End)
    } else if same(s, "stretch") {
        Some(Justify::Stretch)
    } else if same(s, "space-between") {
        Some(Justify::SpaceBetween)
    } else if same(s, "space-around") {
        Some(Justify::SpaceAround)
    } else if same(s, "space-evenly") {
        Some(Justify::SpaceEvenly)
    } else {
        None
    }
}

/// How a kind of node lays out its children.
pub open spec fn flow_of(kind: Seq<char>) -> Flow {
    if kind == "Stack"@ || kind == "Column"@ {
        Flow::Column
    } else if kind == "Row"@ {
        Flow::Row
    } else if kind == "Grid"@ {
        Flow::Wrap
    } else {
        Flow::Leaf
    }
}

/// The first that is there.
pub open spec fn either(a: Option<u32>, b: Option<u32>) -> Option<u32> {
    if a is Some {
        a
    } else {
        b
    }
}

/// The style of a node's box. The root fills the viewport.
pub open spec fn style_of(fl: Unit, n: NodeModel, viewport: (u32, u32), is_root: bool) -> BoxStyle {
    let inner = container(n.kind);
    BoxStyle {
        width: if is_root {
            Some(viewport.0)
        } else {
            px_at(fl, n, "width"@)
        },
        height: if is_root {
            Some(viewport.1)
        } else {
            px_at(fl, n, "height"@)
        },
        grow: match px_at(fl, n, "grow"@) {
            Some(g) => g,
            None => 0,
        },
        inset: if text_at(n, "position"@) == Some("absolute"@) {
            Some(
                Inset {
                    left: px_at(fl, n, "left"@),
                    top: px_at(fl, n, "top"@),
                    right: px_at(fl, n, "right"@),
                    bottom: px_at(fl, n, "bottom"@),
                },
            )
        } else {
            None
        },
        flow: flow_of(n.kind),
        padding: if inner {
            px_at(fl, n, "padding"@)
        } else {
            None
        },
        gap: if inner {
            either(px_at(fl, n, "gap"@), px_at(fl, n, "spacing"@))
        } else {
            None
        },
        align: if inner {
            match text_at(n, "align"@) {
                Some(s) => align_named(s),
                None => None,
            }
        } else {
            None
        },
        justify: if inner {
            match text_at(n, "justify"@) {
                Some(s) => justify_named(s),
                None => None,
            }
        } else {
            None
        },
    }
}

/// The style of a node's box.
pub fn style_for<F: Fn(&FloatOp) -> Option<u64>>(node: &Node, viewport: (u32, u32), is_root: bool, fl: &F) -> (r:
    BoxStyle)
    requires
        steady(*fl),
    ensures
        r == style_of(unit(*fl), node@, viewport, is_root),
{
    let kind = node.kind.as_str();
    let mut style = BoxStyle {
        width: px_of(node, "width", fl),
        height: px_of(node, "height", fl),
        grow: 0,
        inset: None,
        flow: Flow::Leaf,
        padding: None,
        gap: None,
        align: None,
        justify: None,
    };
    if is_root {
        style.width = Some(viewport.0);
        style.height = Some(viewport.1);
    }
    match px_of(node, "grow", fl) {
        Some(g) => {
            style.grow = g;
        },
        None => {},
    }
    match text_of(node, "position") {
        Some(s) => {
            if same(s.as_str(), "absolute") {
                style.inset = Some(
                    Inset {
                        left: px_of(node, "left", fl),
                        top: px_of(node, "top", fl),
                        right: px_of(node, "right", fl),
                        bottom: px_of(node, "bottom", fl),
                    },
                );
            }
        },
        None => {},
    }
    if same(kind, "Stack") || same(kind, "Column") {
        style.flow = Flow::Column;
    } else if same(kind, "Row") {
        style.flow = Flow::Row;
    } else if same(kind, "Grid") {
        style.flow = Flow::Wrap;
    }
    if is_container(kind) {
        style.padding = px_of(node, "padding", fl);
        style.gap = match px_of(node, "gap", fl) {
            Some(g) => Some(g),
            None => px_of(node, "spacing", fl),
        };
        match text_of(node, "align") {
            Some(s) => {
                style.align = align_items_of(s.as_str());
            },
            None => {},
        }
        match text_of(node, "justify") {
            Some(s) => {
                style.justify = justify_of(s.as_str());
            },
            None => {},
        }
    }
    style
}

/// A box for a layout engine: the node it stands for, its style, the size that a text has on its
/// own, and the boxes in it.
#[derive(Debug)]
pub struct Plan {
    pub id: NodeId,
    pub style: BoxStyle,
    pub text: Option<(u32, u32)>,
    pub children: Vec<Plan>,
}

/// A [`Plan`] as mathematics.
pub struct PlanModel {
    pub id: NodeId,
    pub style: BoxStyle,
    pub text: Option<(u32, u32)>,
    pub children: Seq<PlanModel>,
}

/// The mathematical content of a plan.
pub open spec fn plan_model(p: Plan) -> PlanModel
    decreases p,
{
    PlanModel {
        id: p.id,
        style: p.style,
        text: p.text,
        children: Seq::new(
            p.children@.len(),
            |i: int|
                if 0 <= i < p.children@.len() {
                    plan_model(p.children@[i])
                } else {
                    arbitrary()
                },
        ),
    }
}

impl View for Plan {
    type V = PlanModel;

    open spec fn view(&self) -> PlanModel {
        plan_model(*self)
    }
}

/// The models of a row of plans.
pub open spec fn plan_models(s: Seq<Plan>) -> Seq<PlanModel> {
    s.map_values(|p: Plan| p@)
}

/// What planning a node comes to.
pub enum Planned {
    /// The node is not there.
    Missing,
    /// There are more levels than were allowed.
    Deeper,
    /// A plan.
    Is(PlanModel),
}

/// What a plan depends on.
pub struct Page {
    pub tree: Tree,
    pub viewport: (u32, u32),
    pub fl: Unit,
}

/// The plan of a node, at most `n` levels deep. Only containers hold boxes.
pub open spec fn planned(g: Page, id: NodeId, is_root: bool, n: nat) -> Planned
    decreases n, 0int, 0int,
{
    if !g.tree.nodes.dom().contains(id) {
        Planned::Missing
    } else if n == 0 {
        Planned::Deeper
    } else {
        let node = g.tree.nodes[id];
        let style = style_of(g.fl, node, g.viewport, is_root);
        let text = if node.kind == "Text"@ {
            Some(intrinsic(g.fl, node))
        } else {
            None
        };
        if container(node.kind) {
            match planned_all(g, node.children, 0, (n - 1) as nat, Seq::empty()) {
                Some(children) => Planned::Is(PlanModel { id, style, text, children }),
                None => Planned::Deeper,
            }
        } else {
            Planned::Is(PlanModel { id, style, text, children: Seq::empty() })
        }
    }
}

/// The plans of the children from `i` on that are there, behind those made so far.
pub open spec fn planned_all(g: Page, kids: Seq<NodeId>, i: int, n: nat, acc: Seq<PlanModel>) -> Option<
    Seq<PlanModel>,
>
    decreases n, 1int, kids.len() - i,
{
    if i < 0 || i >= kids.len() {
        Some(acc)
    } else {
        match planned(g, kids[i], false, n) {
            Planned::Missing => planned_all(g, kids, i + 1, n, acc),
            Planned::Deeper => None,
            Planned::Is(p) => planned_all(g, kids, i + 1, n, acc.push(p)),
        }
    }
}

enum Built {
    Missing,
    Deeper,
    Is(Plan),
}

impl Built {
    spec fn model(self) -> Planned {
        match self {
            Built::Missing => Planned::Missing,
            Built::Deeper => Planned::Deeper,
            Built::Is(p) => Planned::Is(p@),
        }
    }
}

fn build_subtree<F: Fn(&FloatOp) -> Option<u64>>(
    doc: &Document,
    id: NodeId,
    viewport: (u32, u32),
    is_root: bool,
    depth: u64,
    fl: &F,
) -> (r: Built)
    requires
        steady(*fl),
    ensures
        r.model() == planned(
            Page { tree: doc@.tree, viewport, fl: unit(*fl) },
            id,
            is_root,
            depth as nat,
        ),
    decreases depth, 0int,
{
    let node = match doc.get(id) {
        Some(node) => node,
        None => {
            return Built::Missing;
        },
    };
    if depth == 0 {
        return Built::Deeper;
    }
    let style = style_for(node, viewport, is_root, fl);
    let text = if same(node.kind.as_str(), "Text") {
        Some(text_intrinsic_size(node, fl))
    } else {
        None
    };
    let mut children: Vec<Plan> = Vec::new();
    if is_container(node.kind.as_str()) {
        match build_children(doc, &node.children, viewport, depth - 1, fl) {
            Some(kids) => {
                children = kids;
            },
            None => {
                return Built::Deeper;
            },
        }
    }
    let p = Plan { id, style, text, children };
    proof {
        assert(p@.children =~= plan_models(p.children@));
        if !container(node@.kind) {
            assert(p@.children =~= Seq::empty());
        }
    }
    Built::Is(p)
}

fn build_children<F: Fn(&FloatOp) -> Option<u64>>(
    doc: &Document,
    kids: &Vec<NodeId>,
    viewport: (u32, u32),
    depth: u64,
    fl: &F,
) -> (r: Option<Vec<Plan>>)
    requires
        steady(*fl),
    ensures
        ({
            let goal = planned_all(
                Page { tree: doc@.tree, viewport, fl: unit(*fl) },
                kids@,
                0,
                depth as nat,
                Seq::empty(),
            );
            match r {
                Some(v) => goal == Some(plan_models(v@)),
                None => goal is None,
            }
        }),
    decreases depth, 1int,
{
    let ghost g = Page { tree: doc@.tree, viewport, fl: unit(*fl) };
    let mut out: Vec<Plan> = Vec::new();
    let mut i: usize = 0;
    assert(plan_models(out@) =~= Seq::empty());
    while i < kids.len()
        invariant
            steady(*fl),
            g == (Page { tree: doc@.tree, viewport, fl: unit(*fl) }),
            i <= kids@.len(),
            planned_all(g, kids@, i as int, depth as nat, plan_models(out@)) == planned_all(
                g,
                kids@,
                0,
                depth as nat,
                Seq::empty(),
            ),
        decreases kids.len() - i,
    {
        match build_subtree(doc, kids[i], viewport, false, depth, fl) {
            Built::Missing => {},
            Built::Deeper => {
                return None;
            },
            Built::Is(p) => {
                let ghost was = plan_models(out@);
                let ghost x = p@;
                out.push(p);
                assert(plan_models(out@) =~= was.push(x));
            },
        }
        i += 1;
    }
    Some(out)
}

/// A rectangle of one node, from the top left corner of the viewport.
#[derive(Debug, Clone, Copy)]
pub struct ComputedRect {
    pub x: u32,
    pub y: u32,
    pub w: u32,
    pub h: u32,
}

/// The same place and size.
pub open spec fn rect_same(a: ComputedRect, b: ComputedRect) -> bool {
    crate::float::eq32(a.x, b.x) && crate::float::eq32(a.y, b.y) && crate::float::eq32(a.w, b.w)
        && crate::float::eq32(a.h, b.h)
}

impl PartialEq for ComputedRect {
    fn eq(&self, other: &ComputedRect) -> (r: bool) {
        crate::float::equal_single(self.x, other.x) && crate::float::equal_single(self.y, other.y)
            && crate::float::equal_single(self.w, other.w) && crate::float::equal_single(
            self.h,
            other.h,
        )
    }
}

impl vstd::std_specs::cmp::PartialEqSpecImpl for ComputedRect {
    open spec fn obeys_eq_spec() -> bool {
        true
    }

    open spec fn eq_spec(&self, other: &ComputedRect) -> bool {
        rect_same(*self, *other)
    }
}

/// The point lies in the rectangle, of which the far edges are not part.
pub open spec fn inside(fl: Unit, r: ComputedRect, p: (u32, u32)) -> bool {
    le32(r.x, p.0) && lt32(p.0, add32(fl, r.x, r.w)) && le32(r.y, p.1) && lt32(p.1, add32(fl, r.y, r.h))
}

impl ComputedRect {
    /// `true` exactly when the point lies in the rectangle.
    pub fn contains<F: Fn(&FloatOp) -> Option<u64>>(&self, point: (u32, u32), fl: &F) -> (r: bool)
        requires
            steady(*fl),
        ensures
            r == inside(unit(*fl), *self, point),
    {
        at_most_single(self.x, point.0) && less_single(point.0, sum(fl, self.x, self.w)) && at_most_single(
            self.y,
            point.1,
        ) && less_single(point.1, sum(fl, self.y, self.h))
    }
}

/// Where a layout engine put a box: its place in its parent and its size.
#[derive(Debug, Clone, Copy, PartialEq, Eq, Structural)]
pub struct Frame {
    pub x: u32,
    pub y: u32,
    pub w: u32,
    pub h: u32,
}

/// The rectangles of a plan and what is in it, parents before children, and the place of the next
/// frame. The frames stand in the same order; a box without one is left out with all in it.
pub open spec fn placed(fl: Unit, p: PlanModel, frames: Seq<Frame>, at: int, origin: (u32, u32)) -> (
    Seq<(NodeId, ComputedRect)>,
    int,
)
    decreases p, 0int,
{
    if at < 0 || at >= frames.len() {
        (Seq::empty(), at)
    } else {
        let f = frames[at];
        let x = add32(fl, origin.0, f.x);
        let y = add32(fl, origin.1, f.y);
        let (rest, next) = placed_all(fl, p.children, 0, frames, at + 1, (x, y));
        (seq![(p.id, ComputedRect { x, y, w: f.w, h: f.h })] + rest, next)
    }
}

/// The rectangles of the plans from `i` on.
pub open spec fn placed_all(
    fl: Unit,
    s: Seq<PlanModel>,
    i: int,
    frames: Seq<Frame>,
    at: int,
    origin: (u32, u32),
) -> (Seq<(NodeId, ComputedRect)>, int)
    decreases s, s.len() - i,
{
    if i < 0 || i >= s.len() {
        (Seq::empty(), at)
    } else {
        let (a, next) = placed(fl, s[i], frames, at, origin);
        let (b, end) = placed_all(fl, s, i + 1, frames, next, origin);
        (a + b, end)
    }
}

/// The rectangle of every node that was laid out, and the order to paint them in.
#[derive(Debug)]
pub struct Layout {
    rects: HashMap<u64, ComputedRect>,
    order: Vec<NodeId>,
    viewport: (u32, u32),
}

/// A [`Layout`] as mathematics.
#[verifier::ext_equal]
pub struct LayoutModel {
    pub rects: Map<NodeId, ComputedRect>,
    pub order: Seq<NodeId>,
    pub viewport: (u32, u32),
}

impl View for Layout {
    type V = LayoutModel;

    closed spec fn view(&self) -> LayoutModel {
        LayoutModel {
            rects: Map::new(
                |id: NodeId| self.rects@.contains_key(id.0),
                |id: NodeId| self.rects@[id.0],
            ),
            order: self.order@,
            viewport: self.viewport,
        }
    }
}

/// A layout with nothing in it.
pub open spec fn no_layout(viewport: (u32, u32)) -> LayoutModel {
    LayoutModel { rects: Map::empty(), order: Seq::empty(), viewport }
}

/// A layout with rectangles added in order.
pub open spec fn with_rects(l: LayoutModel, s: Seq<(NodeId, ComputedRect)>) -> LayoutModel
    decreases s.len(),
{
    if s.len() == 0 {
        l
    } else {
        let m = with_rects(l, s.drop_last());
        LayoutModel {
            rects: m.rects.insert(s.last().0, s.last().1),
            order: m.order.push(s.last().0),
            viewport: m.viewport,
        }
    }
}

proof fn lemma_with_rects_join(l: LayoutModel, a: Seq<(NodeId, ComputedRect)>, b: Seq<(NodeId, ComputedRect)>)
    ensures
        with_rects(l, a + b) == with_rects(with_rects(l, a), b),
    decreases b.len(),
{
    if b.len() == 0 {
        assert(a + b =~= a);
    } else {
        lemma_with_rects_join(l, a, b.drop_last());
        assert((a + b).drop_last() =~= a + b.drop_last());
    }
}

/// The layout that a plan and its frames give. Without frames there is none.
pub open spec fn arranged(fl: Unit, p: PlanModel, frames: Option<Seq<Frame>>, viewport: (u32, u32)) -> LayoutModel {
    match frames {
        Some(f) => with_rects(no_layout(viewport), placed(fl, p, f, 0, (0, 0)).0),
        None => no_layout(viewport),
    }
}

impl Default for Layout {
    fn default() -> (r: Layout)
        ensures
            r@ == no_layout((0, 0)),
    {
        Layout::empty((0, 0))
    }
}

impl Clone for Layout {
    fn clone(&self) -> (r: Layout)
        ensures
            r@ == self@,
    {
        let mut order: Vec<NodeId> = Vec::new();
        let mut i: usize = 0;
        while i < self.order.len()
            invariant
                i <= self.order@.len(),
                order@ == self.order@.take(i as int),
            decreases self.order.len() - i,
        {
            order.push(self.order[i]);
            i += 1;
            assert(order@ =~= self.order@.take(i as int));
        }
        assert(order@ =~= self.order@);
        let r = Layout { rects: self.rects.clone(), order, viewport: self.viewport };
        assert(r@ =~= self@);
        r
    }
}

impl Layout {
    /// A layout with nothing in it.
    pub fn empty(viewport: (u32, u32)) -> (r: Layout)
        ensures
            r@ == no_layout(viewport),
    {
        let r = Layout { rects: HashMap::new(), order: Vec::new(), viewport };
        assert(r@ =~= no_layout(viewport));
        r
    }

    fn add_rect(&mut self, id: NodeId, rect: ComputedRect)
        ensures
            final(self)@ == (LayoutModel {
                rects: old(self)@.rects.insert(id, rect),
                order: old(self)@.order.push(id),
                viewport: old(self)@.viewport,
            }),
    {
        let _was = self.rects.insert(id.0, rect);
        self.order.push(id);
        assert(self@ =~= LayoutModel {
            rects: old(self)@.rects.insert(id, rect),
            order: old(self)@.order.push(id),
            viewport: old(self)@.viewport,
        });
    }

    /// The rectangle of a node, where it was laid out.
    pub fn rect(&self, id: NodeId) -> (r: Option<ComputedRect>)
        ensures
            r is Some <==> self@.rects.dom().contains(id),
            r matches Some(c) ==> c == self@.rects[id],
    {
        match self.rects.get(&id.0) {
            Some(c) => Some(*c),
            None => None,
        }
    }

    /// The nodes in painter's order: the last is on top.
    pub fn order(&self) -> (r: &[NodeId])
        ensures
            r@ == self@.order,
    {
        self.order.as_slice()
    }

    /// The viewport.
    pub fn viewport(&self) -> (r: (u32, u32))
        ensures
            r == self@.viewport,
    {
        self.viewport
    }

    /// How many nodes were laid out.
    pub fn len(&self) -> (r: usize)
        ensures
            r == self@.order.len(),
    {
        self.order.len()
    }

    /// `true` exactly when nothing was laid out.
    pub fn is_empty(&self) -> (r: bool)
        ensures
            r == (self@.order.len() == 0),
    {
        self.order.len() == 0
    }
}

fn collect_rects<F: Fn(&FloatOp) -> Option<u64>>(
    p: &Plan,
    frames: &Vec<Frame>,
    at: usize,
    origin: (u32, u32),
    out: &mut Layout,
    fl: &F,
) -> (r: usize)
    requires
        steady(*fl),
        at <= frames@.len(),
    ensures
        r <= frames@.len(),
        r == placed(unit(*fl), p@, frames@, at as int, origin).1,
        final(out)@ == with_rects(
            old(out)@,
            placed(unit(*fl), p@, frames@, at as int, origin).0,
        ),
    decreases p, 0int,
{
    if at >= frames.len() {
        return at;
    }
    let f = frames[at];
    let x: u32 = sum(fl, origin.0, f.x);
    let y: u32 = sum(fl, origin.1, f.y);
    let rect = ComputedRect { x, y, w: f.w, h: f.h };
    let ghost one = seq![(p.id, rect)];
    out.add_rect(p.id, rect);
    proof {
        reveal_with_fuel(with_rects, 2);
        assert(one.drop_last() =~= Seq::empty());
        assert(out@ == with_rects(old(out)@, one));
        assert(p@.children =~= plan_models(p.children@));
        assert(decreases_to!(p => p.children));
    }
    let r: usize = collect_all(&p.children, frames, at + 1, (x, y), out, fl);
    proof {
        let rest = placed_all(unit(*fl), p@.children, 0, frames@, at + 1, (x, y)).0;
        lemma_with_rects_join(old(out)@, one, rest);
    }
    r
}

fn collect_all<F: Fn(&FloatOp) -> Option<u64>>(
    s: &Vec<Plan>,
    frames: &Vec<Frame>,
    from: usize,
    origin: (u32, u32),
    out: &mut Layout,
    fl: &F,
) -> (r: usize)
    requires
        steady(*fl),
        from <= frames@.len(),
    ensures
        r <= frames@.len(),
        r == placed_all(unit(*fl), plan_models(s@), 0, frames@, from as int, origin).1,
        final(out)@ == with_rects(
            old(out)@,
            placed_all(unit(*fl), plan_models(s@), 0, frames@, from as int, origin).0,
        ),
    decreases s, 1int,
{
    let ghost all = plan_models(s@);
    let ghost goal = placed_all(unit(*fl), all, 0, frames@, from as int, origin);
    let mut at: usize = from;
    let mut i: usize = 0;
    let ghost mut done = Seq::<(NodeId, ComputedRect)>::empty();
    proof {
        assert(done + goal.0 =~= goal.0);
    }
    while i < s.len()
        invariant
            steady(*fl),
            i <= s@.len(),
            at <= frames@.len(),
            all == plan_models(s@),
            done + placed_all(unit(*fl), all, i as int, frames@, at as int, origin).0 == goal.0,
            placed_all(unit(*fl), all, i as int, frames@, at as int, origin).1 == goal.1,
            out@ == with_rects(old(out)@, done),
        decreases s.len() - i,
    {
        let ghost was = done;
        let ghost at0 = at as int;
        proof {
            assert(decreases_to!(s => s@[i as int]));
            assert(all[i as int] == s@[i as int]@);
        }
        at = collect_rects(&s[i], frames, at, origin, out, fl);
        proof {
            let a = placed(unit(*fl), all[i as int], frames@, at0, origin);
            lemma_with_rects_join(old(out)@, was, a.0);
            done = was + a.0;
            let b = placed_all(unit(*fl), all, i + 1, frames@, a.1, origin);
            assert(done + b.0 =~= was + (a.0 + b.0));
        }
        i += 1;
    }
    assert(done + Seq::<(NodeId, ComputedRect)>::empty() =~= done);
    at
}

/// The layout that a plan and its frames give.
pub fn arrange<F: Fn(&FloatOp) -> Option<u64>>(
    p: &Plan,
    frames: &Option<Vec<Frame>>,
    viewport: (u32, u32),
    fl: &F,
) -> (r: Layout)
    requires
        steady(*fl),
    ensures
        r@ == arranged(
            unit(*fl),
            p@,
            match *frames {
                Some(f) => Some(f@),
                None => None,
            },
            viewport,
        ),
{
    let mut out = Layout::empty(viewport);
    match frames {
        Some(f) => {
            let _next = collect_rects(p, f, 0, (0, 0), &mut out, fl);
        },
        None => {},
    }
    out
}

proof fn lemma_planned_deeper(g: Page, id: NodeId, is_root: bool, n: nat)
    requires
        !(planned(g, id, is_root, n) is Deeper),
    ensures
        planned(g, id, is_root, n + 1) == planned(g, id, is_root, n),
    decreases n, 0int, 0int,
{
    if g.tree.nodes.dom().contains(id) && container(g.tree.nodes[id].kind) {
        assert((n + 1 - 1) as nat == (n - 1) as nat + 1);
        lemma_planned_all_deeper(g, g.tree.nodes[id].children, 0, (n - 1) as nat, Seq::empty());
    }
}

proof fn lemma_planned_all_deeper(g: Page, kids: Seq<NodeId>, i: int, n: nat, acc: Seq<PlanModel>)
    requires
        planned_all(g, kids, i, n, acc) is Some,
    ensures
        planned_all(g, kids, i, n + 1, acc) == planned_all(g, kids, i, n, acc),
    decreases n, 1int, kids.len() - i,
{
    if 0 <= i < kids.len() {
        lemma_planned_deeper(g, kids[i], false, n);
        match planned(g, kids[i], false, n) {
            Planned::Is(p) => {
                lemma_planned_all_deeper(g, kids, i + 1, n, acc.push(p));
            },
            _ => {
                lemma_planned_all_deeper(g, kids, i + 1, n, acc);
            },
        }
    }
}

/// Where planning ends within some depth, a greater depth changes nothing.
pub proof fn lemma_plan_grows(g: Page, id: NodeId, is_root: bool, n: nat, m: nat)
    requires
        !(planned(g, id, is_root, n) is Deeper),
        n <= m,
    ensures
        planned(g, id, is_root, m) == planned(g, id, is_root, n),
    decreases m - n,
{
    if n < m {
        lemma_planned_deeper(g, id, is_root, n);
        lemma_plan_grows(g, id, is_root, n + 1, m);
    }
}

/// Planning comes to an end: no chain of containers leads back to its start.
pub open spec fn plannable(g: Page) -> bool {
    match g.tree.root {
        None => true,
        Some(root) => exists|n: u64| !(#[trigger] planned(g, root, true, n as nat) is Deeper),
    }
}

/// The plan of a page, where it has a root.
pub open spec fn plan_of(g: Page) -> Planned {
    match g.tree.root {
        None => Planned::Missing,
        Some(root) => planned(
            g,
            root,
            true,
            (choose|n: u64| !(#[trigger] planned(g, root, true, n as nat) is Deeper)) as nat,
        ),
    }
}

/// The plan of a document: a box for its root, with boxes for what is in it. `None` where there
/// is no root.
pub fn plan<F: Fn(&FloatOp) -> Option<u64>>(doc: &Document, viewport: (u32, u32), fl: &F) -> (r: Option<Plan>)
    requires
        steady(*fl),
        plannable(Page { tree: doc@.tree, viewport, fl: unit(*fl) }),
    ensures
        match r {
            Some(p) => plan_of(Page { tree: doc@.tree, viewport, fl: unit(*fl) }) == Planned::Is(p@),
            None => plan_of(Page { tree: doc@.tree, viewport, fl: unit(*fl) }) is Missing,
        },
{
    let ghost g = Page { tree: doc@.tree, viewport, fl: unit(*fl) };
    let root = match doc.root() {
        Some(root) => root,
        None => {
            return None;
        },
    };
    let ghost enough: u64 = choose|n: u64| !(#[trigger] planned(g, root, true, n as nat) is Deeper);
    let mut depth: u64 = doc.len() as u64;
    loop
        invariant
            steady(*fl),
            g == (Page { tree: doc@.tree, viewport, fl: unit(*fl) }),
            g.tree.root == Some(root),
            enough == choose|n: u64| !(#[trigger] planned(g, root, true, n as nat) is Deeper),
            !(planned(g, root, true, enough as nat) is Deeper),
        decreases (if depth < enough {
            enough - depth
        } else {
            0
        }),
    {
        let built = build_subtree(doc, root, viewport, true, depth, fl);
        proof {
            if enough <= depth {
                lemma_plan_grows(g, root, true, enough as nat, depth as nat);
            } else if !(planned(g, root, true, depth as nat) is Deeper) {
                lemma_plan_grows(g, root, true, depth as nat, enough as nat);
            }
        }
        match built {
            Built::Is(p) => {
                return Some(p);
            },
            Built::Missing => {
                return None;
            },
            Built::Deeper => {
                depth = depth + 1;
            },
        }
    }
}

/// The layouts that an engine may give a page.
pub open spec fn may_lay_out<E: Fn(&Plan) -> Option<Vec<Frame>>>(e: E, g: Page, l: LayoutModel) -> bool {
    match plan_of(g) {
        Planned::Is(m) => exists|p: &Plan, f: Option<Vec<Frame>>| #[trigger]
            call_ensures(e, (p,), f) && p@ == m && l == arranged(
                g.fl,
                m,
                match f {
                    Some(v) => Some(v@),
                    None => None,
                },
                g.viewport,
            ),
        _ => l == no_layout(g.viewport),
    }
}

/// Lays out a document with a layout engine, which is given the plan and returns the frame of
/// every box in it, parents before children. A document without a root has an empty layout.
pub fn layout<F: Fn(&FloatOp) -> Option<u64>, E: Fn(&Plan) -> Option<Vec<Frame>>>(
    doc: &Document,
    viewport: (u32, u32),
    fl: &F,
    engine: &E,
) -> (r: Layout)
    requires
        steady(*fl),
        forall|p: &Plan| #[trigger] call_requires(*engine, (p,)),
        plannable(Page { tree: doc@.tree, viewport, fl: unit(*fl) }),
    ensures
        may_lay_out(*engine, Page { tree: doc@.tree, viewport, fl: unit(*fl) }, r@),
{
    match plan(doc, viewport, fl) {
        Some(p) => {
            let frames = engine(&p);
            assert(call_ensures(*engine, (&p,), frames));
            arrange(&p, &frames, viewport, fl)
        },
        None => Layout::empty(viewport),
    }
}

/// The node at place `i` of the order is under the point.
pub open spec fn hit(fl: Unit, l: LayoutModel, p: (u32, u32), i: int) -> bool {
    l.rects.dom().contains(l.order[i]) && inside(fl, l.rects[l.order[i]], p)
}

/// The last of the first `k` nodes in painter's order that is under the point.
pub open spec fn topmost(fl: Unit, l: LayoutModel, p: (u32, u32), k: int) -> Option<NodeId>
    decreases k,
{
    if k <= 0 {
        None
    } else if hit(fl, l, p, k - 1) {
        Some(l.order[k - 1])
    } else {
        topmost(fl, l, p, k - 1)
    }
}

/// The topmost node under a point: the last in painter's order whose rectangle holds it.
pub fn hit_test<F: Fn(&FloatOp) -> Option<u64>>(layout: &Layout, point: (u32, u32), fl: &F) -> (r: Option<NodeId>)
    requires
        steady(*fl),
    ensures
        r == topmost(unit(*fl), layout@, point, layout@.order.len() as int),
{
    let order = layout.order();
    let mut i: usize = order.len();
    while i > 0
        invariant
            steady(*fl),
            order@ == layout@.order,
            i <= order@.len(),
            topmost(unit(*fl), layout@, point, layout@.order.len() as int) == topmost(
                unit(*fl),
                layout@,
                point,
                i as int,
            ),
        decreases i,
    {
        i -= 1;
        let id = order[i];
        match layout.rect(id) {
            Some(rect) => {
                if rect.contains(point, fl) {
                    assert(hit(unit(*fl), layout@, point, i as int));
                    return Some(id);
                }
            },
            None => {},
        }
        assert(!hit(unit(*fl), layout@, point, i as int));
    }
    None
}

} // verus!
