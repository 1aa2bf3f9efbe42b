use taffy::prelude::{
    length, AlignItems, AvailableSpace, FlexDirection, FlexWrap, JustifyContent, Position, Rect, Size, Style,
    TaffyTree,
};
use taffy::compute_leaf_layout;

use uni::a11y::{a11y_id, build_tree, role_for_kind, A11yNode, Role, TreeUpdate, ROOT_ID};
use uni::float::FloatOp;
use uni::ir::{Document, Mutation, Origin};
use uni::layout::{layout, Align, BoxStyle, Flow, Frame, Justify, Plan};
use uni::node::NodeId;
use uni::value::{Action, Value};

fn p(x: f32) -> u32 {
    x.to_bits()
}
fn px(b: u32) -> f32 {
    f32::from_bits(b)
}

fn taffy_style(s: &BoxStyle) -> Style {
    let side = |x: Option<u32>| match x {
        Some(b) => length(px(b)),
        None => taffy::style_helpers::auto(),
    };
    let mut style = Style { size: Size { width: side(s.width), height: side(s.height) }, ..Style::default() };
    style.flex_grow = px(s.grow);
    if let Some(inset) = s.inset {
        let edge = |x: Option<u32>| match x {
            Some(b) => length(px(b)),
            None => taffy::style_helpers::auto(),
        };
        style.position = Position::Absolute;
        style.inset = Rect {
            left: edge(inset.left),
            right: edge(inset.right),
            top: edge(inset.top),
            bottom: edge(inset.bottom),
        };
    }
    match s.flow {
        Flow::Leaf => {}
        Flow::Column => style.flex_direction = FlexDirection::Column,
        Flow::Row => style.flex_direction = FlexDirection::Row,
        Flow::Wrap => {
            style.flex_direction = FlexDirection::Row;
            style.flex_wrap = FlexWrap::Wrap;
        }
    }
    if let Some(p) = s.padding {
        style.padding = Rect { left: length(px(p)), right: length(px(p)), top: length(px(p)), bottom: length(px(p)) };
    }
    if let Some(g) = s.gap {
        style.gap = Size { width: length(px(g)), height: length(px(g)) };
    }
    if let Some(a) = s.align {
        style.align_items = match a {
            Align::Start => AlignItems::START,
            Align::Center => AlignItems::CENTER,
            Align::End => AlignItems::END,
            Align::Stretch => AlignItems::STRETCH,
        };
    }
    if let Some(j) = s.justify {
        style.justify_content = match j {
            Justify::Start => JustifyContent::START,
            Justify::Center => JustifyContent::CENTER,
            Justify::End => JustifyContent::END,
            Justify::Stretch => JustifyContent::STRETCH,
            Justify::SpaceBetween => JustifyContent::SPACE_BETWEEN,
            Justify::SpaceAround => JustifyContent::SPACE_AROUND,
            Justify::SpaceEvenly => JustifyContent::SPACE_EVENLY,
        };
    }
    style
}

fn taffy_build(p: &Plan, tree: &mut TaffyTree<Option<(u32, u32)>>) -> Option<taffy::NodeId> {
    let style = taffy_style(&p.style);
    if p.style.flow == Flow::Leaf {
        tree.new_leaf_with_context(style, p.text).ok()
    } else {
        let children: Vec<taffy::NodeId> = p.children.iter().filter_map(|c| taffy_build(c, tree)).collect();
        tree.new_with_children(style, &children).ok()
    }
}

fn taffy_collect(tree: &TaffyTree<Option<(u32, u32)>>, id: taffy::NodeId, out: &mut Vec<Frame>) {
    let l = tree.layout(id).unwrap();
    out.push(Frame {
        x: l.location.x.to_bits(),
        y: l.location.y.to_bits(),
        w: l.size.width.to_bits(),
        h: l.size.height.to_bits(),
    });
    for child in tree.children(id).unwrap() {
        taffy_collect(tree, child, out);
    }
}

fn engine(plan: &Plan) -> Option<Vec<Frame>> {
    let mut tree: TaffyTree<Option<(u32, u32)>> = TaffyTree::new();
    let root = taffy_build(plan, &mut tree)?;
    let side = |x: Option<u32>| match x {
        Some(b) => AvailableSpace::Definite(px(b)),
        None => AvailableSpace::MaxContent,
    };
    let available = Size { width: side(plan.style.width), height: side(plan.style.height) };
    tree.compute_layout_with_measure(root, available, |inputs, _node, context, style| {
        let text = context.and_then(|c| *c).map(|(w, h)| (px(w), px(h))).unwrap_or((0.0, 0.0));
        compute_leaf_layout(
            inputs,
            style,
            |_, _| 0.0,
            |known, _space| Size { width: known.width.unwrap_or(text.0), height: known.height.unwrap_or(text.1) },
        )
    })
    .ok()?;
    let mut out = Vec::new();
    taffy_collect(&tree, root, &mut out);
    Some(out)
}

fn fl(op: &FloatOp) -> Option<u64> {
    let d = |x: f64| Some(x.to_bits());
    let s = |x: f32| Some(x.to_bits() as u64);
    let f = f32::from_bits;
    let g = f64::from_bits;
    match op {
        FloatOp::Read { text } => text.parse::<f64>().ok().map(f64::to_bits),
        FloatOp::ReadSingle { text } => text.parse::<f32>().ok().map(|x| x.to_bits() as u64),
        FloatOp::Narrow { double } => s(g(*double) as f32),
        FloatOp::Widen { single } => d(f(*single) as f64),
        FloatOp::FromInt { value } => d(*value as f64),
        FloatOp::Add { a, b } => d(g(*a) + g(*b)),
        FloatOp::Sub { a, b } => d(g(*a) - g(*b)),
        FloatOp::Mul { a, b } => d(g(*a) * g(*b)),
        FloatOp::Div { a, b } => d(g(*a) / g(*b)),
        FloatOp::AddSingle { x, y } => s(f(*x) + f(*y)),
        FloatOp::SubSingle { x, y } => s(f(*x) - f(*y)),
        FloatOp::MulSingle { x, y } => s(f(*x) * f(*y)),
        FloatOp::DivSingle { x, y } => s(f(*x) / f(*y)),
        FloatOp::SqrtSingle { x } => s(f(*x).sqrt()),
        FloatOp::FromIntSingle { value } => s(*value as f32),
        FloatOp::CeilSingle { x } => s(f(*x).ceil()),
        FloatOp::RoundSingle { x } => s(f(*x).round()),
        FloatOp::ExpSingle { x } => s(f(*x).exp()),
        FloatOp::PowSingle { x, y } => s(f(*x).powf(f(*y))),
        FloatOp::AngleSingle { y, x } => s(f(*y).atan2(f(*x))),
    }
}

fn node(doc: &mut Document, kind: &str) -> NodeId {
    let id = doc.fresh_id();
    doc.apply_from(
        Origin::System,
        Mutation::CreateNode {
            id,
            kind: kind.into(),
        },
    )
    .unwrap();
    id
}

fn prop(doc: &mut Document, id: NodeId, key: &str, value: Value) {
    doc.apply_from(
        Origin::System,
        Mutation::SetProp {
            id,
            key: key.into(),
            value,
        },
    )
    .unwrap();
}

fn child(doc: &mut Document, parent: NodeId, c: NodeId) {
    doc.apply_from(Origin::System, Mutation::AppendChild { parent, child: c })
        .unwrap();
}

fn set_root(doc: &mut Document, id: NodeId) {
    doc.apply_from(Origin::System, Mutation::SetRoot { id })
        .unwrap();
}

fn find(update: &TreeUpdate, ir: NodeId) -> &A11yNode {
    let want = a11y_id(ir);
    &update
        .nodes
        .iter()
        .find(|(id, _)| *id == want)
        .expect("node present in tree update")
        .1
}

#[test]
fn role_mapping_covers_the_doctrine_table() {
    assert_eq!(role_for_kind("Text"), Role::Label);
    assert_eq!(role_for_kind("Button"), Role::Button);
    assert_eq!(role_for_kind("Stack"), Role::Group);
    assert_eq!(role_for_kind("Row"), Role::Group);
    assert_eq!(role_for_kind("Column"), Role::Group);
    assert_eq!(role_for_kind("Grid"), Role::Group);
    assert_eq!(role_for_kind("Rect"), Role::GenericContainer);
    assert_eq!(role_for_kind("Frost"), Role::GenericContainer);
    assert_eq!(role_for_kind("FrostedRect"), Role::GenericContainer);
    assert_eq!(role_for_kind("Whatever"), Role::GenericContainer);
}

#[test]
fn builds_tree_from_ir_and_layout() {
    let mut doc = Document::new();

    let root = node(&mut doc, "Stack");
    set_root(&mut doc, root);

    let text = node(&mut doc, "Text");
    prop(&mut doc, text, "content", Value::Text("Hi".into()));
    child(&mut doc, root, text);

    let btn = node(&mut doc, "Button");
    prop(&mut doc, btn, "label", Value::Text("Go".into()));
    doc.apply_from(
        Origin::System,
        Mutation::SetCallback {
            id: btn,
            event: "click".into(),
            action: Action {
                name: "submit".into(),
                args: vec![],
            },
        },
    )
    .unwrap();
    child(&mut doc, root, btn);

    let l = layout(&doc, (p(800.0), p(600.0)), &fl, &engine);
    let update = build_tree(&doc, &l, None, &fl);

    let a_text = find(&update, text);
    assert_eq!(a_text.role, Role::Label);
    assert_eq!(a_text.label.as_deref(), Some("Hi"));

    let lr = l.rect(text).expect("text laid out");
    let b = a_text.bounds.expect("text has bounds");
    assert_eq!(f64::from_bits(b.x0), px(lr.x) as f64);
    assert_eq!(f64::from_bits(b.y0), px(lr.y) as f64);
    assert_eq!(f64::from_bits(b.x1), (px(lr.x) + px(lr.w)) as f64);
    assert_eq!(f64::from_bits(b.y1), (px(lr.y) + px(lr.h)) as f64);

    let a_btn = find(&update, btn);
    assert_eq!(a_btn.role, Role::Button);
    assert_eq!(a_btn.label.as_deref(), Some("Go"));
    assert!(
        a_btn.actionable,
        "button should support Click"
    );
    assert!(
        a_btn.actionable,
        "button should be focusable"
    );

    assert!(
        !a_text.actionable,
        "text should not support Click"
    );

    let window = &update
        .nodes
        .iter()
        .find(|(id, _)| *id == ROOT_ID)
        .unwrap()
        .1;
    assert_eq!(window.children, vec![a11y_id(root)]);

    let a_root = find(&update, root);
    assert_eq!(a_root.role, Role::Group);
    assert_eq!(a_root.children, vec![a11y_id(text), a11y_id(btn)]);

    assert_eq!(update.root, ROOT_ID);
    assert_eq!(update.focus, ROOT_ID);
}

#[test]
fn every_button_has_a_name_and_an_action() {
    let mut doc = Document::new();

    let root = node(&mut doc, "Stack");
    set_root(&mut doc, root);

    let save = node(&mut doc, "Button");
    prop(&mut doc, save, "label", Value::Text("Save".into()));
    doc.apply_from(
        Origin::System,
        Mutation::SetCallback {
            id: save,
            event: "click".into(),
            action: Action {
                name: "save".into(),
                args: vec![],
            },
        },
    )
    .unwrap();
    child(&mut doc, root, save);

    let cancel = node(&mut doc, "Button");
    prop(&mut doc, cancel, "name", Value::Text("Cancel".into()));
    doc.apply_from(
        Origin::System,
        Mutation::SetCallback {
            id: cancel,
            event: "click".into(),
            action: Action {
                name: "cancel".into(),
                args: vec![],
            },
        },
    )
    .unwrap();
    child(&mut doc, root, cancel);

    let l = layout(&doc, (p(800.0), p(600.0)), &fl, &engine);
    let update = build_tree(&doc, &l, None, &fl);

    let mut buttons_seen = 0;
    for (aid, anode) in &update.nodes {
        if anode.role == Role::Button {
            buttons_seen += 1;
            assert!(
                anode.label.as_ref().map(|s| !s.is_empty()).unwrap_or(false),
                "Button {aid:?} must have a non-empty name"
            );
            assert!(
                anode.actionable,
                "Button {aid:?} must support an actionable Click"
            );
        }
    }
    assert_eq!(buttons_seen, 2, "both Button nodes should be in the tree");
}

#[test]
fn empty_document_yields_just_a_window_root() {
    let doc = Document::new();
    let l = layout(&doc, (p(640.0), p(480.0)), &fl, &engine);
    let update = build_tree(&doc, &l, None, &fl);

    assert_eq!(update.nodes.len(), 1);
    let (id, win) = &update.nodes[0];
    assert_eq!(*id, ROOT_ID);
    assert_eq!(win.role, Role::Window);
    assert!(win.children.is_empty());
}
