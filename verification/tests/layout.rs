use taffy::prelude::{
    length, AlignItems, AvailableSpace, FlexDirection, FlexWrap, JustifyContent, Position, Rect, Size, Style,
    TaffyTree,
};
use taffy::compute_leaf_layout;

use uni::float::FloatOp;
use uni::ir::{Document, Mutation, Origin};
use uni::layout::{hit_test, layout, Align, BoxStyle, Flow, Frame, Justify, Layout, Plan};
use uni::node::NodeId;
use uni::paint::lower;
use uni::scene::DrawCmd;
use uni::value::Value;

fn p(x: f32) -> u32 {
    x.to_bits()
}
fn px(b: u32) -> f32 {
    f32::from_bits(b)
}

fn taffy_style(s: &BoxStyle) -> Style {
    let side = |x: Option<u32>| match x {
        Some(b) => length(px(b)),
        None => taffy::style_helpers::auto(),
    };
    let mut style = Style { size: Size { width: side(s.width), height: side(s.height) }, ..Style::default() };
    style.flex_grow = px(s.grow);
    if let Some(inset) = s.inset {
        let edge = |x: Option<u32>| match x {
            Some(b) => length(px(b)),
            None => taffy::style_helpers::auto(),
        };
        style.position = Position::Absolute;
        style.inset = Rect {
            left: edge(inset.left),
            right: edge(inset.right),
            top: edge(inset.top),
            bottom: edge(inset.bottom),
        };
    }
    match s.flow {
        Flow::Leaf => {}
        Flow::Column => style.flex_direction = FlexDirection::Column,
        Flow::Row => style.flex_direction = FlexDirection::Row,
        Flow::Wrap => {
            style.flex_direction = FlexDirection::Row;
            style.flex_wrap = FlexWrap::Wrap;
        }
    }
    if let Some(p) = s.padding {
        style.padding = Rect { left: length(px(p)), right: length(px(p)), top: length(px(p)), bottom: length(px(p)) };
    }
    if let Some(g) = s.gap {
        style.gap = Size { width: length(px(g)), height: length(px(g)) };
    }
    if let Some(a) = s.align {
        style.align_items = match a {
            Align::Start => AlignItems::START,
            Align::Center => AlignItems::CENTER,
            Align::End => AlignItems::END,
            Align::Stretch => AlignItems::STRETCH,
        };
    }
    if let Some(j) = s.justify {
        style.justify_content = match j {
            Justify::Start => JustifyContent::START,
            Justify::Center => JustifyContent::CENTER,
            Justify::End => JustifyContent::END,
            Justify::Stretch => JustifyContent::STRETCH,
            Justify::SpaceBetween => JustifyContent::SPACE_BETWEEN,
            Justify::SpaceAround => JustifyContent::SPACE_AROUND,
            Justify::SpaceEvenly => JustifyContent::SPACE_EVENLY,
        };
    }
    style
}

fn taffy_build(p: &Plan, tree: &mut TaffyTree<Option<(u32, u32)>>) -> Option<taffy::NodeId> {
    let style = taffy_style(&p.style);
    if p.style.flow == Flow::Leaf {
        tree.new_leaf_with_context(style, p.text).ok()
    } else {
        let children: Vec<taffy::NodeId> = p.children.iter().filter_map(|c| taffy_build(c, tree)).collect();
        tree.new_with_children(style, &children).ok()
    }
}

fn taffy_collect(tree: &TaffyTree<Option<(u32, u32)>>, id: taffy::NodeId, out: &mut Vec<Frame>) {
    let l = tree.layout(id).unwrap();
    out.push(Frame {
        x: l.location.x.to_bits(),
        y: l.location.y.to_bits(),
        w: l.size.width.to_bits(),
        h: l.size.height.to_bits(),
    });
    for child in tree.children(id).unwrap() {
        taffy_collect(tree, child, out);
    }
}

fn engine(plan: &Plan) -> Option<Vec<Frame>> {
    let mut tree: TaffyTree<Option<(u32, u32)>> = TaffyTree::new();
    let root = taffy_build(plan, &mut tree)?;
    let side = |x: Option<u32>| match x {
        Some(b) => AvailableSpace::Definite(px(b)),
        None => AvailableSpace::MaxContent,
    };
    let available = Size { width: side(plan.style.width), height: side(plan.style.height) };
    tree.compute_layout_with_measure(root, available, |inputs, _node, context, style| {
        let text = context.and_then(|c| *c).map(|(w, h)| (px(w), px(h))).unwrap_or((0.0, 0.0));
        compute_leaf_layout(
            inputs,
            style,
            |_, _| 0.0,
            |known, _space| Size { width: known.width.unwrap_or(text.0), height: known.height.unwrap_or(text.1) },
        )
    })
    .ok()?;
    let mut out = Vec::new();
    taffy_collect(&tree, root, &mut out);
    Some(out)
}

struct Placed {
    x: f32,
    y: f32,
    w: f32,
    h: f32,
}

fn placed(l: &Layout, id: NodeId) -> Placed {
    let r = l.rect(id).unwrap();
    Placed { x: px(r.x), y: px(r.y), w: px(r.w), h: px(r.h) }
}

fn fl(op: &FloatOp) -> Option<u64> {
    let d = |x: f64| Some(x.to_bits());
    let s = |x: f32| Some(x.to_bits() as u64);
    let f = f32::from_bits;
    let g = f64::from_bits;
    match op {
        FloatOp::Read { text } => text.parse::<f64>().ok().map(f64::to_bits),
        FloatOp::ReadSingle { text } => text.parse::<f32>().ok().map(|x| x.to_bits() as u64),
        FloatOp::Narrow { double } => s(g(*double) as f32),
        FloatOp::Widen { single } => d(f(*single) as f64),
        FloatOp::FromInt { value } => d(*value as f64),
        FloatOp::Add { a, b } => d(g(*a) + g(*b)),
        FloatOp::Sub { a, b } => d(g(*a) - g(*b)),
        FloatOp::Mul { a, b } => d(g(*a) * g(*b)),
        FloatOp::Div { a, b } => d(g(*a) / g(*b)),
        FloatOp::AddSingle { x, y } => s(f(*x) + f(*y)),
        FloatOp::SubSingle { x, y } => s(f(*x) - f(*y)),
        FloatOp::MulSingle { x, y } => s(f(*x) * f(*y)),
        FloatOp::DivSingle { x, y } => s(f(*x) / f(*y)),
        FloatOp::SqrtSingle { x } => s(f(*x).sqrt()),
        FloatOp::FromIntSingle { value } => s(*value as f32),
        FloatOp::CeilSingle { x } => s(f(*x).ceil()),
        FloatOp::RoundSingle { x } => s(f(*x).round()),
        FloatOp::ExpSingle { x } => s(f(*x).exp()),
        FloatOp::PowSingle { x, y } => s(f(*x).powf(f(*y))),
        FloatOp::AngleSingle { y, x } => s(f(*y).atan2(f(*x))),
    }
}

fn prop(doc: &mut Document, id: NodeId, key: &str, value: Value) {
    doc.apply_from(
        Origin::System,
        Mutation::SetProp {
            id,
            key: key.into(),
            value,
        },
    )
    .unwrap();
}

fn node(doc: &mut Document, kind: &str) -> NodeId {
    let id = doc.fresh_id();
    doc.apply_from(
        Origin::System,
        Mutation::CreateNode {
            id,
            kind: kind.into(),
        },
    )
    .unwrap();
    id
}

fn child(doc: &mut Document, parent: NodeId, c: NodeId) {
    doc.apply_from(Origin::System, Mutation::AppendChild { parent, child: c })
        .unwrap();
}

fn set_root(doc: &mut Document, id: NodeId) {
    doc.apply_from(Origin::System, Mutation::SetRoot { id }).unwrap();
}

#[test]
fn empty_document_lowers_to_empty_scene() {
    let doc = Document::new();
    assert!(lower(&doc, (p(640.0), p(480.0)), &fl, &engine).is_empty());
    assert!(layout(&doc, (p(640.0), p(480.0)), &fl, &engine).is_empty());
}

#[test]
fn lowers_stack_with_text_and_rect() {
    let mut doc = Document::new();
    let root = node(&mut doc, "Stack");
    set_root(&mut doc, root);
    prop(&mut doc, root, "background", Value::Color(0x0a0a0aff));

    let t = node(&mut doc, "Text");
    prop(&mut doc, t, "content", Value::Text("Uni-UI".into()));
    prop(&mut doc, t, "size", Value::Px(28.0f32.to_bits()));
    prop(&mut doc, t, "color", Value::Color(0xffffffff));
    child(&mut doc, root, t);

    let r = node(&mut doc, "Rect");
    prop(&mut doc, r, "width", Value::Px(200.0f32.to_bits()));
    prop(&mut doc, r, "height", Value::Px(80.0f32.to_bits()));
    prop(&mut doc, r, "color", Value::Color(0x7d39ebff));
    child(&mut doc, root, r);

    let scene = lower(&doc, (p(800.0), p(600.0)), &fl, &engine);
    assert_eq!(scene.len(), 3);
    assert!(matches!(
        scene[0],
        DrawCmd::FilledRect { color: 0x0a0a0aff, w, h, .. } if px(w) == 800.0 && px(h) == 600.0
    ));
    match &scene[1] {
        DrawCmd::Text { content, color, .. } => {
            assert_eq!(content, "Uni-UI");
            assert_eq!(*color, 0xffffffff);
        }
        other => panic!("expected text, got {other:?}"),
    }
    match &scene[2] {
        DrawCmd::FilledRect { color, w, h, .. } => {
            assert_eq!(*color, 0x7d39ebff);
            assert_eq!(px(*w), 200.0);
            assert_eq!(px(*h), 80.0);
        }
        other => panic!("expected rect, got {other:?}"),
    }
}

#[test]
fn column_stacks_children_vertically_non_overlapping() {
    let mut doc = Document::new();
    let root = node(&mut doc, "Column");
    set_root(&mut doc, root);

    let a = node(&mut doc, "Rect");
    prop(&mut doc, a, "width", Value::Px(100.0f32.to_bits()));
    prop(&mut doc, a, "height", Value::Px(50.0f32.to_bits()));
    child(&mut doc, root, a);

    let b = node(&mut doc, "Rect");
    prop(&mut doc, b, "width", Value::Px(100.0f32.to_bits()));
    prop(&mut doc, b, "height", Value::Px(70.0f32.to_bits()));
    child(&mut doc, root, b);

    let l = layout(&doc, (p(400.0), p(400.0)), &fl, &engine);
    let ra = placed(&l, a);
    let rb = placed(&l, b);
    assert_eq!(ra.y, 0.0);
    assert_eq!(rb.y, ra.y + ra.h);
    assert!(rb.y >= ra.y + ra.h);
}

#[test]
fn row_places_children_horizontally() {
    let mut doc = Document::new();
    let root = node(&mut doc, "Row");
    set_root(&mut doc, root);

    let a = node(&mut doc, "Rect");
    prop(&mut doc, a, "width", Value::Px(100.0f32.to_bits()));
    prop(&mut doc, a, "height", Value::Px(40.0f32.to_bits()));
    child(&mut doc, root, a);

    let b = node(&mut doc, "Rect");
    prop(&mut doc, b, "width", Value::Px(60.0f32.to_bits()));
    prop(&mut doc, b, "height", Value::Px(40.0f32.to_bits()));
    child(&mut doc, root, b);

    let l = layout(&doc, (p(400.0), p(200.0)), &fl, &engine);
    let ra = placed(&l, a);
    let rb = placed(&l, b);
    assert_eq!(ra.x, 0.0);
    assert_eq!(rb.x, ra.x + ra.w);
    assert_eq!(ra.y, rb.y);
}

#[test]
fn padding_and_gap_are_honored() {
    let mut doc = Document::new();
    let root = node(&mut doc, "Column");
    set_root(&mut doc, root);
    prop(&mut doc, root, "padding", Value::Px(10.0f32.to_bits()));
    prop(&mut doc, root, "gap", Value::Px(8.0f32.to_bits()));

    let a = node(&mut doc, "Rect");
    prop(&mut doc, a, "width", Value::Px(50.0f32.to_bits()));
    prop(&mut doc, a, "height", Value::Px(30.0f32.to_bits()));
    child(&mut doc, root, a);

    let b = node(&mut doc, "Rect");
    prop(&mut doc, b, "width", Value::Px(50.0f32.to_bits()));
    prop(&mut doc, b, "height", Value::Px(30.0f32.to_bits()));
    child(&mut doc, root, b);

    let l = layout(&doc, (p(400.0), p(400.0)), &fl, &engine);
    let ra = placed(&l, a);
    let rb = placed(&l, b);
    assert_eq!(ra.x, 10.0);
    assert_eq!(ra.y, 10.0);
    assert_eq!(rb.y, ra.y + ra.h + 8.0);
}

#[test]
fn flex_grow_distributes_remaining_space() {
    let mut doc = Document::new();
    let root = node(&mut doc, "Row");
    set_root(&mut doc, root);

    let a = node(&mut doc, "Rect");
    prop(&mut doc, a, "grow", Value::Int(1));
    prop(&mut doc, a, "height", Value::Px(40.0f32.to_bits()));
    child(&mut doc, root, a);

    let b = node(&mut doc, "Rect");
    prop(&mut doc, b, "grow", Value::Int(1));
    prop(&mut doc, b, "height", Value::Px(40.0f32.to_bits()));
    child(&mut doc, root, b);

    let l = layout(&doc, (p(300.0), p(100.0)), &fl, &engine);
    let ra = placed(&l, a);
    let rb = placed(&l, b);
    assert!((ra.w - 150.0).abs() < 0.5, "a width {}", ra.w);
    assert!((rb.w - 150.0).abs() < 0.5, "b width {}", rb.w);
    assert!((rb.x - 150.0).abs() < 0.5, "b x {}", rb.x);
}

#[test]
fn nested_row_inside_column() {
    let mut doc = Document::new();
    let root = node(&mut doc, "Column");
    set_root(&mut doc, root);

    let header = node(&mut doc, "Rect");
    prop(&mut doc, header, "height", Value::Px(40.0f32.to_bits()));
    prop(&mut doc, header, "width", Value::Px(200.0f32.to_bits()));
    child(&mut doc, root, header);

    let row = node(&mut doc, "Row");
    child(&mut doc, root, row);
    let left = node(&mut doc, "Rect");
    prop(&mut doc, left, "width", Value::Px(80.0f32.to_bits()));
    prop(&mut doc, left, "height", Value::Px(60.0f32.to_bits()));
    child(&mut doc, row, left);
    let right = node(&mut doc, "Rect");
    prop(&mut doc, right, "width", Value::Px(80.0f32.to_bits()));
    prop(&mut doc, right, "height", Value::Px(60.0f32.to_bits()));
    child(&mut doc, row, right);

    let l = layout(&doc, (p(500.0), p(500.0)), &fl, &engine);
    let hr = placed(&l, header);
    let lr = placed(&l, left);
    let rr = placed(&l, right);
    assert!(lr.y >= hr.y + hr.h);
    assert_eq!(rr.x, lr.x + lr.w);
    assert_eq!(lr.y, rr.y);
}

#[test]
fn hit_test_returns_topmost_node() {
    let mut doc = Document::new();
    let root = node(&mut doc, "Stack");
    set_root(&mut doc, root);
    prop(&mut doc, root, "background", Value::Color(0x000000ff));

    let r = node(&mut doc, "Rect");
    prop(&mut doc, r, "width", Value::Px(100.0f32.to_bits()));
    prop(&mut doc, r, "height", Value::Px(100.0f32.to_bits()));
    child(&mut doc, root, r);

    let l = layout(&doc, (p(400.0), p(400.0)), &fl, &engine);
    assert_eq!(hit_test(&l, (p(10.0), p(10.0)), &fl), Some(r));
    assert_eq!(hit_test(&l, (p(300.0), p(300.0)), &fl), Some(root));
    assert_eq!(hit_test(&l, (p(9999.0), p(9999.0)), &fl), None);
}

#[test]
fn absolute_position_floats_over_siblings() {
    let mut doc = Document::new();
    let root = node(&mut doc, "Row");
    set_root(&mut doc, root);

    let base = node(&mut doc, "Rect");
    prop(&mut doc, base, "width", Value::Px(100.0f32.to_bits()));
    prop(&mut doc, base, "height", Value::Px(100.0f32.to_bits()));
    child(&mut doc, root, base);

    let overlay = node(&mut doc, "Frost");
    prop(&mut doc, overlay, "position", Value::Text("absolute".into()));
    prop(&mut doc, overlay, "left", Value::Px(40.0f32.to_bits()));
    prop(&mut doc, overlay, "top", Value::Px(20.0f32.to_bits()));
    prop(&mut doc, overlay, "width", Value::Px(50.0f32.to_bits()));
    prop(&mut doc, overlay, "height", Value::Px(50.0f32.to_bits()));
    child(&mut doc, root, overlay);

    let l = layout(&doc, (p(400.0), p(400.0)), &fl, &engine);
    let br = placed(&l, base);
    let or = placed(&l, overlay);
    assert_eq!(br.x, 0.0);
    assert_eq!(or.x, 40.0);
    assert_eq!(or.y, 20.0);
    assert_eq!(hit_test(&l, (p(45.0), p(25.0)), &fl), Some(overlay));
}

#[test]
fn frost_lowers_to_frosted_rect() {
    let mut doc = Document::new();
    let root = node(&mut doc, "Stack");
    set_root(&mut doc, root);

    let f = node(&mut doc, "Frost");
    prop(&mut doc, f, "width", Value::Px(120.0f32.to_bits()));
    prop(&mut doc, f, "height", Value::Px(80.0f32.to_bits()));
    prop(&mut doc, f, "tint", Value::Color(0xffffff40));
    prop(&mut doc, f, "blur_radius", Value::Px(14.0f32.to_bits()));
    prop(&mut doc, f, "corner_radius", Value::Px(16.0f32.to_bits()));
    child(&mut doc, root, f);

    let scene = lower(&doc, (p(400.0), p(400.0)), &fl, &engine);
    let frost = scene
        .iter()
        .find(|c| matches!(c, DrawCmd::FrostedRect { .. }))
        .expect("frosted rect present");
    match frost {
        DrawCmd::FrostedRect {
            w,
            h,
            tint,
            blur_radius,
            corner_radius,
            ..
        } => {
            assert_eq!(px(*w), 120.0);
            assert_eq!(px(*h), 80.0);
            assert_eq!(*tint, 0xffffff40);
            assert_eq!(px(*blur_radius), 14.0);
            assert_eq!(px(*corner_radius), 16.0);
        }
        _ => unreachable!(),
    }
}
