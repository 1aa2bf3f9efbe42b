use taffy::compute_leaf_layout;
use taffy::prelude::{
    length, AlignItems, AvailableSpace, FlexDirection, FlexWrap, JustifyContent, Position, Rect, Size, Style,
    TaffyTree,
};

use uni::a11y::{a11y_id, ROOT_ID};
use uni::animation::{Animation, Curve, ImplicitEntry};
use uni::canvas::{CanvasRenderer, LightOp};
use uni::coherence::IrDefect;
use uni::coherence_law::{can_be_walked, walks_within};
use uni::diff::diff;
use uni::expr::Expr;
use uni::float::FloatOp;
use uni::gesture::{GestureEvent, GestureKind, Recognizer};
use uni::input::{InputEvent, PointerButton};
use uni::ir::{Document, IrError, Mutation, Origin};
use uni::layout::{hit_test, layout, plan, Align, BoxStyle, Flow, Frame, Justify, Plan};
use uni::node::NodeId;
use uni::paint::paint;
use uni::react::{Graph, Role};
use uni::renderer::RenderError;
use uni::resolve::{resolve, resolve_within};
use uni::runtime::{Runtime, Spring, SpringState};
use uni::scene::DrawCmd;
use uni::store::{FloatText, Store};
use uni::value::{Action, Binding, Value};
use uni::walk::walk;
use uni::window::{after_frame, frame_step, window_viewport, AfterFrame, WindowSignal};
use uni::wire::DocumentWire;

fn p(x: f32) -> u32 {
    x.to_bits()
}
fn px(b: u32) -> f32 {
    f32::from_bits(b)
}

fn taffy_style(s: &BoxStyle) -> Style {
    let side = |x: Option<u32>| match x {
        Some(b) => length(px(b)),
        None => taffy::style_helpers::auto(),
    };
    let mut style = Style { size: Size { width: side(s.width), height: side(s.height) }, ..Style::default() };
    style.flex_grow = px(s.grow);
    if let Some(inset) = s.inset {
        let edge = |x: Option<u32>| match x {
            Some(b) => length(px(b)),
            None => taffy::style_helpers::auto(),
        };
        style.position = Position::Absolute;
        style.inset = Rect {
            left: edge(inset.left),
            right: edge(inset.right),
            top: edge(inset.top),
            bottom: edge(inset.bottom),
        };
    }
    match s.flow {
        Flow::Leaf => {}
        Flow::Column => style.flex_direction = FlexDirection::Column,
        Flow::Row => style.flex_direction = FlexDirection::Row,
        Flow::Wrap => {
            style.flex_direction = FlexDirection::Row;
            style.flex_wrap = FlexWrap::Wrap;
        }
    }
    if let Some(p) = s.padding {
        style.padding = Rect { left: length(px(p)), right: length(px(p)), top: length(px(p)), bottom: length(px(p)) };
    }
    if let Some(g) = s.gap {
        style.gap = Size { width: length(px(g)), height: length(px(g)) };
    }
    if let Some(a) = s.align {
        style.align_items = match a {
            Align::Start => AlignItems::START,
            Align::Center => AlignItems::CENTER,
            Align::End => AlignItems::END,
            Align::Stretch => AlignItems::STRETCH,
        };
    }
    if let Some(j) = s.justify {
        style.justify_content = match j {
            Justify::Start => JustifyContent::START,
            Justify::Center => JustifyContent::CENTER,
            Justify::End => JustifyContent::END,
            Justify::Stretch => JustifyContent::STRETCH,
            Justify::SpaceBetween => JustifyContent::SPACE_BETWEEN,
            Justify::SpaceAround => JustifyContent::SPACE_AROUND,
            Justify::SpaceEvenly => JustifyContent::SPACE_EVENLY,
        };
    }
    style
}

fn taffy_build(p: &Plan, tree: &mut TaffyTree<Option<(u32, u32)>>) -> Option<taffy::NodeId> {
    let style = taffy_style(&p.style);
    if p.style.flow == Flow::Leaf {
        tree.new_leaf_with_context(style, p.text).ok()
    } else {
        let children: Vec<taffy::NodeId> = p.children.iter().filter_map(|c| taffy_build(c, tree)).collect();
        tree.new_with_children(style, &children).ok()
    }
}

fn taffy_collect(tree: &TaffyTree<Option<(u32, u32)>>, id: taffy::NodeId, out: &mut Vec<Frame>) {
    let l = tree.layout(id).unwrap();
    out.push(Frame {
        x: l.location.x.to_bits(),
        y: l.location.y.to_bits(),
        w: l.size.width.to_bits(),
        h: l.size.height.to_bits(),
    });
    for child in tree.children(id).unwrap() {
        taffy_collect(tree, child, out);
    }
}

fn engine(plan: &Plan) -> Option<Vec<Frame>> {
    let mut tree: TaffyTree<Option<(u32, u32)>> = TaffyTree::new();
    let root = taffy_build(plan, &mut tree)?;
    let side = |x: Option<u32>| match x {
        Some(b) => AvailableSpace::Definite(px(b)),
        None => AvailableSpace::MaxContent,
    };
    let available = Size { width: side(plan.style.width), height: side(plan.style.height) };
    tree.compute_layout_with_measure(root, available, |inputs, _node, context, style| {
        let text = context.and_then(|c| *c).map(|(w, h)| (px(w), px(h))).unwrap_or((0.0, 0.0));
        compute_leaf_layout(
            inputs,
            style,
            |_, _| 0.0,
            |known, _space| Size { width: known.width.unwrap_or(text.0), height: known.height.unwrap_or(text.1) },
        )
    })
    .ok()?;
    let mut out = Vec::new();
    taffy_collect(&tree, root, &mut out);
    Some(out)
}

fn light(op: LightOp) -> u32 {
    match op {
        LightOp::Linear { packed, channel } => {
            let c = ((packed >> (24 - 8 * channel as u32)) & 0xff) as f32 / 255.0;
            let linear = if channel == 3 {
                c
            } else if c <= 0.04045 {
                c / 12.92
            } else {
                ((c + 0.055) / 1.055).powf(2.4)
            };
            linear.to_bits()
        }
        LightOp::Packed { r, g, b, a } => {
            let byte = |c: f32| (c.clamp(0.0, 1.0) * 255.0).round() as u32;
            let curve = |bits: u32| {
                let c = f32::from_bits(bits);
                if c <= 0.0031308 {
                    c * 12.92
                } else {
                    1.055 * c.powf(1.0 / 2.4) - 0.055
                }
            };
            (byte(curve(r)) << 24) | (byte(curve(g)) << 16) | (byte(curve(b)) << 8) | byte(f32::from_bits(a))
        }
    }
}

fn step(spring: Spring, state: SpringState, dt: u32, near: u32) -> (SpringState, bool) {
    let omega = std::f32::consts::TAU / px(spring.response);
    let (value, velocity, target) = (px(state.value), px(state.velocity), px(state.target));
    let pull = omega * omega * (target - value) - 2.0 * px(spring.damping) * omega * velocity;
    let velocity = velocity + pull * px(dt);
    let value = value + velocity * px(dt);
    let settled = (value - target).abs() < px(near) && velocity.abs() < px(near);
    (SpringState { value: p(value), velocity: p(velocity), target: state.target }, settled)
}

fn sample(anim: Animation, elapsed: u32) -> u32 {
    let t = (px(elapsed) / px(anim.duration)).clamp(0.0, 1.0);
    p(match anim.curve {
        Curve::Linear => t,
        Curve::EaseIn => t * t,
        Curve::EaseOut => t * (2.0 - t),
        Curve::EaseInOut => t * t * (3.0 - 2.0 * t),
        Curve::Spring { damping, .. } => {
            let swing = |t: f32| 1.0 - (-6.0 * px(damping) * t).exp() * (4.0 * t).cos();
            swing(t) / swing(1.0)
        }
    })
}

fn fl(op: &FloatOp) -> Option<u64> {
    let d = |x: f64| Some(x.to_bits());
    let s = |x: f32| Some(x.to_bits() as u64);
    let f = f32::from_bits;
    let g = f64::from_bits;
    match op {
        FloatOp::Read { text } => text.parse::<f64>().ok().map(f64::to_bits),
        FloatOp::ReadSingle { text } => text.parse::<f32>().ok().map(|x| x.to_bits() as u64),
        FloatOp::Narrow { double } => s(g(*double) as f32),
        FloatOp::Widen { single } => d(f(*single) as f64),
        FloatOp::FromInt { value } => d(*value as f64),
        FloatOp::Add { a, b } => d(g(*a) + g(*b)),
        FloatOp::Sub { a, b } => d(g(*a) - g(*b)),
        FloatOp::Mul { a, b } => d(g(*a) * g(*b)),
        FloatOp::Div { a, b } => d(g(*a) / g(*b)),
        FloatOp::AddSingle { x, y } => s(f(*x) + f(*y)),
        FloatOp::SubSingle { x, y } => s(f(*x) - f(*y)),
        FloatOp::MulSingle { x, y } => s(f(*x) * f(*y)),
        FloatOp::DivSingle { x, y } => s(f(*x) / f(*y)),
        FloatOp::SqrtSingle { x } => s(f(*x).sqrt()),
        FloatOp::FromIntSingle { value } => s(*value as f32),
        FloatOp::CeilSingle { x } => s(f(*x).ceil()),
        FloatOp::RoundSingle { x } => s(f(*x).round()),
        FloatOp::ExpSingle { x } => s(f(*x).exp()),
        FloatOp::PowSingle { x, y } => s(f(*x).powf(f(*y))),
        FloatOp::AngleSingle { y, x } => s(f(*y).atan2(f(*x))),
    }
}

fn text(s: &str) -> Value {
    Value::Text(s.to_string())
}

fn node(doc: &mut Document, kind: &str) -> NodeId {
    let id = doc.fresh_id();
    doc.apply_from(Origin::System, Mutation::CreateNode { id, kind: kind.to_string() }).unwrap();
    id
}

fn prop(doc: &mut Document, id: NodeId, key: &str, value: Value) {
    doc.apply_from(Origin::System, Mutation::SetProp { id, key: key.to_string(), value }).unwrap();
}

fn child(doc: &mut Document, parent: NodeId, child: NodeId) {
    doc.apply_from(Origin::System, Mutation::AppendChild { parent, child }).unwrap();
}

fn click(doc: &mut Document, id: NodeId, name: &str) {
    let action = Action { name: name.to_string(), args: vec![] };
    doc.apply_from(Origin::System, Mutation::SetCallback { id, event: "click".to_string(), action }).unwrap();
}

/// A stack with a label and a button.
fn small() -> (Document, NodeId, NodeId, NodeId) {
    let mut doc = Document::new();
    let root = node(&mut doc, "Stack");
    let label = node(&mut doc, "Text");
    let button = node(&mut doc, "Button");
    prop(&mut doc, label, "content", text("Hello"));
    prop(&mut doc, button, "label", text("Go"));
    prop(&mut doc, button, "width", Value::Px(p(80.0)));
    prop(&mut doc, button, "height", Value::Px(p(40.0)));
    click(&mut doc, button, "go");
    child(&mut doc, root, label);
    child(&mut doc, root, button);
    doc.apply_from(Origin::System, Mutation::SetRoot { id: root }).unwrap();
    (doc, root, label, button)
}

fn live() -> (Runtime, NodeId, NodeId, NodeId) {
    let (doc, root, label, button) = small();
    (Runtime::new(doc, (p(200.0), p(200.0)), &fl, &engine), root, label, button)
}

fn set_live(rt: &mut Runtime, id: NodeId, key: &str, value: Value) {
    rt.edit(Origin::System, Mutation::SetProp { id, key: key.to_string(), value }).unwrap();
}

fn handler(name: &str, store: &Store, _origin: Origin) -> Option<Store> {
    if name != "go" {
        return None;
    }
    let mut next = store.clone();
    next.set("went", Value::Bool(true));
    Some(next)
}

fn print(x: FloatText) -> String {
    match x {
        FloatText::Double(b) => f64::from_bits(b).to_string(),
        FloatText::Single(b) => f32::from_bits(b).to_string(),
    }
}

fn props(doc: &Document, id: NodeId, key: &str) -> Option<Value> {
    doc.get(id).and_then(|n| n.props.get(key)).cloned()
}

#[test]
fn accessibility_children_stand_before_their_parents() {
    let (rt, root, label, button) = live();
    let update = rt.a11y_update(&fl);
    let place = |id: u64| update.nodes.iter().position(|(n, _)| *n == id);
    for (i, (_, n)) in update.nodes.iter().enumerate() {
        for c in &n.children {
            assert!(place(*c).unwrap() < i);
        }
    }
    let ids: Vec<u64> = update.nodes.iter().map(|(id, _)| *id).collect();
    assert_eq!(ids, vec![a11y_id(label), a11y_id(button), a11y_id(root), ROOT_ID]);
    assert_eq!(a11y_id(NodeId(0)), 1);
}

#[test]
fn finished_animation_stands_at_its_target() {
    let anim = Animation { curve: Curve::Linear, duration: p(0.5) };
    let mut e = ImplicitEntry {
        id: NodeId(1),
        prop: "width".to_string(),
        from: p(10.0),
        to: p(30.0),
        anim,
        elapsed: p(0.25),
    };
    assert_eq!(px(e.value(&fl, &sample)), 20.0);
    assert!(!e.is_done());
    e.elapsed = p(0.5);
    assert!(e.is_done());
    assert_eq!(e.value(&fl, &sample), p(30.0));
}

#[test]
fn painting_keeps_what_is_outside() {
    let mut canvas = CanvasRenderer::new(3, 2);
    let scene = vec![DrawCmd::filled_rect(p(1.0), p(0.0), p(1.0), p(1.0), 0x20406080, 0)];
    canvas.render(&scene, &fl, &light).unwrap();
    assert_eq!(canvas.pixels.len(), 24);
    for (i, byte) in canvas.pixels.iter().enumerate() {
        if i / 4 != 1 {
            assert_eq!(*byte, 0, "byte {i}");
        }
    }
    assert!(canvas.pixels[4..8].iter().any(|b| *b != 0));
}

#[test]
fn half_opaque_white_over_black() {
    let mut canvas = CanvasRenderer::new(1, 1);
    let black = DrawCmd::filled_rect(0, 0, p(1.0), p(1.0), 0x000000FF, 0);
    let white = DrawCmd::filled_rect(0, 0, p(1.0), p(1.0), 0xFFFFFF80, 0);
    canvas.render(&vec![black, white], &fl, &light).unwrap();
    assert_eq!(canvas.pixels, vec![188, 188, 188, 255]);
}

#[test]
fn agreeing_links_can_be_walked() {
    let (doc, root, label, button) = small();
    assert_eq!(doc.verify(), Ok(()));
    assert!(can_be_walked(&doc));
    assert_eq!(walk(&doc), vec![root, button, label]);
    let mut broken = doc.to_wire();
    broken.nodes[0].1.parent = Some(NodeId(99));
    let broken = Document::from_wire(broken);
    assert!(!can_be_walked(&broken));
    assert_eq!(
        broken.verify(),
        Err(vec![IrDefect::DanglingParent { node: root, parent: NodeId(99) }])
    );
}

#[test]
fn a_child_listed_twice_is_no_tree() {
    let (doc, root, label, _) = small();
    let mut wire = doc.to_wire();
    let at = wire.nodes.iter().position(|(id, _)| *id == root).unwrap();
    wire.nodes[at].1.children.push(label);
    let doc = Document::from_wire(wire);
    assert_eq!(doc.verify(), Ok(()));
    assert!(!can_be_walked(&doc));
}

#[test]
fn difference_turns_one_document_into_the_other() {
    let (old, _, label, _) = small();
    let (mut new, root, _, button) = small();
    prop(&mut new, label, "content", text("Changed"));
    new.apply_from(Origin::Human, Mutation::RemoveChild { parent: root, child: button }).unwrap();
    let mut doc = Document::from_wire(old.to_wire());
    for m in diff(&old, &new) {
        doc.apply_from(Origin::Ai, m).unwrap();
    }
    assert_eq!(props(&doc, label, "content"), Some(text("Changed")));
    assert_eq!(doc.get(root).unwrap().children, vec![label]);
    assert!(diff(&old, &old).is_empty());
}

#[test]
fn a_bare_name_reads_the_store() {
    let mut store = Store::new();
    store.set("count", Value::Int(7));
    let e = Expr::parse("count", &fl);
    assert!(e.same_as(&Expr::Key("count".to_string())));
    assert_eq!(e.eval(&store, &fl), Some(Value::Int(7)));
    assert_eq!(Expr::parse("other", &fl).eval(&store, &fl), None);
}

#[test]
fn a_missed_press_is_ignored_and_cancel_starts_over() {
    let down = InputEvent::PointerDown { x: p(1.0), y: p(1.0), button: PointerButton::Left };
    let mut r = Recognizer::new(NodeId(1), "tap", GestureKind::Tap { count: 1 });
    assert!(r.feed(&down, false, &fl).is_empty());
    assert!(!r.is_tracking());
    r.feed(&down, true, &fl);
    assert!(r.is_tracking());
    r.cancel();
    assert!(!r.is_tracking());
    assert!(r.tick(p(10.0), &fl).is_empty());
}

#[test]
fn a_long_press_fires_once() {
    let down = InputEvent::PointerDown { x: p(1.0), y: p(1.0), button: PointerButton::Left };
    let mut r = Recognizer::new(NodeId(1), "hold", GestureKind::LongPress { min_duration: p(0.5) });
    r.feed(&down, true, &fl);
    assert!(r.tick(p(0.25), &fl).is_empty());
    assert_eq!(r.tick(p(0.25), &fl), vec![GestureEvent::Recognized]);
    assert!(r.tick(p(5.0), &fl).is_empty());
}

#[test]
fn the_log_only_grows_and_invoking_keeps_the_tree() {
    let (mut doc, _, _, button) = small();
    let before = doc.to_wire();
    let action = doc.fire(button, "click", Origin::Ai).unwrap();
    assert_eq!(action.name, "go");
    let after = doc.to_wire();
    assert_eq!(before.nodes, after.nodes);
    assert_eq!(after.log.len(), before.log.len() + 1);
    assert_eq!(after.log[..before.log.len()], before.log[..]);
    assert_eq!(after.log[before.log.len()].origin, Origin::Ai);
    assert!(doc.fire(button, "hover", Origin::Ai).is_none());
    assert_eq!(doc.audit_log().len(), after.log.len());
}

#[test]
fn fresh_ids_are_new_and_a_detached_child_stays() {
    let (mut doc, root, label, _) = small();
    let a = doc.fresh_id();
    let b = doc.fresh_id();
    assert!(a != b && doc.get(a).is_none());
    doc.apply_from(Origin::Human, Mutation::RemoveChild { parent: root, child: label }).unwrap();
    assert!(doc.get(label).is_some());
    assert_eq!(doc.get(label).unwrap().parent, None);
}

#[test]
fn each_refused_mutation_has_its_error() {
    let (mut doc, root, label, button) = small();
    let none = NodeId(77);
    let log = doc.audit_log().len();
    assert_eq!(
        doc.apply_from(Origin::Human, Mutation::CreateNode { id: root, kind: "Text".to_string() }),
        Err(IrError::DuplicateNode(root))
    );
    assert_eq!(
        doc.apply_from(Origin::Human, Mutation::SetRoot { id: none }),
        Err(IrError::NoSuchNode(none))
    );
    assert_eq!(
        doc.apply_from(Origin::Human, Mutation::RemoveChild { parent: label, child: button }),
        Err(IrError::NotAChild { parent: label, child: button })
    );
    assert_eq!(doc.audit_log().len(), log);
}

#[test]
fn layout_is_ordered_and_hits_the_topmost() {
    let (doc, root, label, button) = small();
    let l = layout(&doc, (p(200.0), p(200.0)), &fl, &engine);
    assert_eq!(l.order(), &[root, label, button]);
    let r = l.rect(button).unwrap();
    let inside = (p(px(r.x) + 1.0), p(px(r.y) + 1.0));
    assert_eq!(hit_test(&l, inside, &fl), Some(button));
    assert_eq!(hit_test(&l, (p(-1.0), p(-1.0)), &fl), None);
    let blank = layout(&Document::new(), (p(10.0), p(10.0)), &fl, &engine);
    assert!(blank.is_empty());
    assert!(paint(&Document::new(), &blank, &fl).is_empty());
    assert!(plan(&Document::new(), (p(10.0), p(10.0)), &fl).is_none());
}

#[test]
fn a_scene_is_in_the_order_of_the_painter() {
    let (mut doc, root, label, _) = small();
    prop(&mut doc, root, "background", Value::Color(0x102030FF));
    let l = layout(&doc, (p(200.0), p(200.0)), &fl, &engine);
    let scene = paint(&doc, &l, &fl);
    assert!(matches!(&scene[0], DrawCmd::FilledRect { color: 0x102030FF, .. }));
    let at = scene.iter().position(|c| matches!(c, DrawCmd::Text { content, .. } if content == "Hello"));
    assert!(at.unwrap() > 0);
    assert!(l.rect(label).is_some());
}

#[test]
fn unanimated_changes_start_nothing_and_seeding_is_quiet() {
    let (mut rt, _, _, button) = live();
    assert!(!rt.tick(p(0.1), &fl, &engine, &step, &sample));
    assert!(rt.implicit_settled());
    rt
        .edit(
            Origin::Human,
            Mutation::SetProp { id: button, key: "width".to_string(), value: Value::Px(p(120.0)) },
        )
        .unwrap();
    assert!(!rt.tick(p(0.1), &fl, &engine, &step, &sample));
    assert_eq!(props(rt.doc(), button, "width"), Some(Value::Px(p(120.0))));
}

#[test]
fn reactive_edges_follow_the_reads() {
    let mut g = Graph::new();
    let a = g.add_node(Role::Signal);
    let b = g.add_node(Role::Signal);
    let e = g.add_node(Role::Effect);
    let role = g.begin_run(e);
    g.track(a);
    g.end_run(e, role);
    assert!(!g.is_dirty(e));
    g.mark_subscribers_dirty(b);
    assert!(!g.is_dirty(e));
    g.mark_subscribers_dirty(a);
    assert!(g.is_dirty(e));
    assert!(g.begin_flush());
    assert!(!g.begin_flush());
    assert_eq!(g.next_effect(), Some(e));
    assert_eq!(g.next_effect(), None);
    g.end_flush();
    let role = g.begin_run(e);
    g.end_run(e, role);
    g.mark_subscribers_dirty(a);
    assert!(!g.is_dirty(e), "a run that read nothing depends on nothing");
}

#[test]
fn resolved_documents_hold_literals_whatever_the_limit() {
    let mut doc = Document::new();
    let root = node(&mut doc, "Stack");
    let label = node(&mut doc, "Text");
    child(&mut doc, root, label);
    let binding = Binding { expr: "name".to_string() };
    doc.apply_from(Origin::System, Mutation::SetBinding { id: label, key: "content".to_string(), binding }).unwrap();
    doc.apply_from(Origin::System, Mutation::SetRoot { id: root }).unwrap();
    let mut store = Store::new();
    store.set("name", text("Ada"));
    let plain = resolve(&doc, &store, &fl);
    let bounded = resolve_within(&doc, &store, 9, &fl).unwrap();
    assert_eq!(plain, bounded);
    assert!(resolve_within(&doc, &store, 0, &fl).is_none());
    let top = plain.root().unwrap();
    let leaf = plain.get(top).unwrap().children[0];
    assert_eq!(props(&plain, leaf, "content"), Some(text("Ada")));
    assert!(plain.get(leaf).unwrap().bindings.is_empty());
}

#[test]
fn an_invocation_is_audited_and_shown() {
    let (mut rt, _, label, button) = live();
    rt
        .edit(
            Origin::System,
            Mutation::SetBinding {
                id: label,
                key: "visible".to_string(),
                binding: Binding { expr: "went".to_string() },
            },
        )
        .unwrap();
    assert!(rt.invoke(button, "click", Origin::Ai, &fl, &engine, &handler));
    assert_eq!(rt.invoke_counts(), (0, 1));
    assert_eq!(rt.store().get("went"), Some(Value::Bool(true)));
    assert_eq!(props(rt.doc(), label, "visible"), Some(Value::Bool(true)));
    assert!(rt.dirty_nodes().is_empty());
    let log = rt.doc().audit_log().len();
    assert!(!rt.invoke(label, "click", Origin::Human, &fl, &engine, &handler));
    assert_eq!(rt.doc().audit_log().len(), log);
    rt.relayout(&fl, &engine);
    assert_eq!(rt.layout().order().len(), 3);
}

#[test]
fn back_undoes_navigate_and_dismiss_undoes_present() {
    let (mut rt, _, _, _) = live();
    assert!(!rt.back(Origin::Human, &fl, &engine));
    rt.navigate("home", Origin::Human, &fl, &engine);
    rt.navigate("detail", Origin::Ai, &fl, &engine);
    assert_eq!(rt.route(), Some("detail"));
    assert!(rt.back(Origin::Human, &fl, &engine));
    assert_eq!(rt.nav_stack(), &["home".to_string()]);
    assert!(!rt.is_presented("sheet"));
    rt.present("sheet", Origin::Human, &fl, &engine);
    assert!(rt.is_presented("sheet"));
    rt.dismiss("sheet", Origin::Human, &fl, &engine);
    assert!(!rt.is_presented("sheet"));
}

#[test]
fn focus_visits_what_can_be_clicked() {
    let (mut rt, _, _, button) = live();
    assert!(rt.move_focus(true));
    assert_eq!(rt.focused(), Some(button));
    rt.move_focus(true);
    assert_eq!(rt.focused(), Some(button));
    assert!(rt.activate_focused(&fl, &engine, &handler));
    assert_eq!(rt.invoke_counts(), (1, 0));
}

#[test]
fn restoring_a_snapshot_reads_what_was_written() {
    let mut store = Store::new();
    store.set("flag", Value::Bool(true));
    store.set("n", Value::Int(-3));
    store.set("ratio", Value::Float(0.5f64.to_bits()));
    store.set("name", text("a b"));
    let words = store.snapshot(&print);
    let mut other = Store::new();
    other.restore(&words, &fl);
    for key in ["flag", "n", "ratio", "name"] {
        assert_eq!(other.get(key), store.get(key), "{key}");
    }
}

#[test]
fn undoing_restores_the_tree_and_is_logged() {
    let (mut doc, _, label, _) = small();
    let before = doc.to_wire().nodes;
    let m = Mutation::SetProp { id: label, key: "content".to_string(), value: text("Bye") };
    let inverse = m.inverse(&doc).unwrap();
    assert_eq!(
        inverse,
        Mutation::SetProp { id: label, key: "content".to_string(), value: text("Hello") }
    );
    doc.apply_from(Origin::Human, m).unwrap();
    let log = doc.audit_log().len();
    doc.undo_last(Origin::Ai).unwrap();
    assert_eq!(doc.to_wire().nodes, before);
    assert_eq!(doc.audit_log().len(), log + 1);
}

#[test]
fn plain_data_gives_the_document_back() {
    let (doc, _, _, _) = small();
    let wire: DocumentWire = doc.to_wire();
    assert!(wire.nodes.windows(2).all(|w| w[0].0 < w[1].0));
    assert_eq!(Document::from_wire(doc.to_wire()), doc);
    assert_eq!(wire.next_id, doc.next_id());
}

#[test]
fn the_assistant_key_clicks_and_other_keys_do_not() {
    let (mut rt, _, _, button) = live();
    let key = |k: &str| InputEvent::KeyDown { key: k.to_string() };
    assert!(!rt.on_window_input(&key("b"), &fl, &engine, &handler));
    assert!(rt.on_window_input(&key("A"), &fl, &engine, &handler));
    assert_eq!(rt.invoke_counts(), (0, 1));
    assert!(rt.on_a11y_click(a11y_id(button), &fl, &engine, &handler));
    assert_eq!(rt.invoke_counts(), (1, 1));
    assert!(!rt.on_a11y_click(0, &fl, &engine, &handler));
}

#[test]
fn a_window_and_its_frames() {
    assert_eq!(window_viewport(800, 600, 2.0f64.to_bits(), &fl), (p(400.0), p(300.0)));
    assert_eq!(px(frame_step(None)), 1.0 / 60.0);
    assert_eq!(frame_step(Some(p(0.25))), p(0.25));
    assert_eq!(after_frame(&Ok(())), AfterFrame::Nothing);
    assert_eq!(after_frame(&Err(RenderError::SurfaceLost)), AfterFrame::Resize);
    assert_eq!(after_frame(&Err(RenderError::OutOfMemory)), AfterFrame::Report);
    assert_eq!(after_frame(&Err(RenderError::Transient)), AfterFrame::Report);
    assert_eq!(after_frame(&Err(RenderError::Backend("x".to_string()))), AfterFrame::Report);
}

#[test]
fn springs_land_and_leave() {
    let (mut rt, _, _, button) = live();
    let spring = Spring { response: p(0.2), damping: p(1.0) };
    rt.animate(button, "width", p(80.0), p(100.0), spring);
    assert!(!rt.animations_settled());
    let mut frames = 0;
    while rt.tick_animations(p(1.0 / 60.0), &fl, &engine, &step) && frames < 600 {
        frames += 1;
    }
    assert!(rt.animations_settled());
    match props(rt.doc(), button, "width") {
        Some(Value::Px(w)) => assert!((px(w) - 100.0).abs() < 1.0),
        other => panic!("{other:?}"),
    }
}

#[test]
fn signals_of_a_window_become_orders() {
    let (mut rt, _, _, button) = live();
    let two = 2.0f64.to_bits();
    let close = rt.on_window_signal(WindowSignal::CloseRequested, (9, 9), two, &fl, &engine, &step);
    assert!(close.print_log && close.exit && !close.redraw && close.resize.is_none());
    let resized = WindowSignal::Resized { width: 800, height: 600 };
    let orders = rt.on_window_signal(resized, (9, 9), two, &fl, &engine, &step);
    assert_eq!(orders.resize, Some((800, 600, two)));
    assert!(orders.commit && orders.redraw && !orders.exit);
    assert_eq!(rt.viewport(), (p(400.0), p(300.0)));
    let scaled = WindowSignal::ScaleChanged { scale_factor: two };
    assert_eq!(rt.on_window_signal(scaled, (7, 5), 0, &fl, &engine, &step).resize, Some((7, 5, two)));
    assert_eq!(rt.viewport(), (p(400.0), p(300.0)));
    let frame = WindowSignal::RedrawRequested { since_last: None };
    let still = rt.on_window_signal(frame, (9, 9), two, &fl, &engine, &step);
    assert_eq!((still.render, still.poll, still.redraw), (true, Some(false), false));
    rt.animate(button, "width", p(80.0), p(900.0), Spring { response: p(0.5), damping: p(0.8) });
    let moving = rt.on_window_signal(frame, (9, 9), two, &fl, &engine, &step);
    assert_eq!((moving.render, moving.poll, moving.redraw), (true, Some(true), true));
    let other = rt.on_window_signal(WindowSignal::Other, (9, 9), two, &fl, &engine, &step);
    assert!(!other.render && !other.redraw && other.poll.is_none());
}

#[test]
fn every_edit_keeps_the_links() {
    let (mut doc, root, label, button) = small();
    let leaf = node(&mut doc, "Text");
    child(&mut doc, button, leaf);
    assert!(can_be_walked(&doc));
    let mut moved = doc.clone();
    child(&mut moved, button, label);
    assert_eq!(moved.verify(), Ok(()));
    assert_eq!(moved.get(root).unwrap().children, vec![button]);
    assert_eq!(moved.get(button).unwrap().children, vec![leaf, label]);
    assert_eq!(moved.get(label).unwrap().parent, Some(button));
    for (above, below) in [(root, leaf), (root, button), (button, button)] {
        let before = doc.to_wire().nodes;
        let m = Mutation::AppendChild { parent: below, child: above };
        assert_eq!(
            doc.apply_from(Origin::Human, m),
            Err(IrError::NotAChild { parent: below, child: above })
        );
        assert_eq!(doc.to_wire().nodes, before);
    }
    let mut orphaned = doc.clone();
    orphaned.apply_from(Origin::Human, Mutation::RemoveNode { id: root }).unwrap();
    assert_eq!(orphaned.verify(), Ok(()));
    assert_eq!(orphaned.root(), None);
    assert_eq!(orphaned.get(label).unwrap().parent, None);
    assert_eq!(orphaned.get(button).unwrap().parent, None);
    assert_eq!(orphaned.get(leaf).unwrap().parent, Some(button));
}

#[test]
fn a_removed_node_leaves_its_children_without_a_parent() {
    let mut doc = Document::new();
    let parent = node(&mut doc, "Stack");
    let kid = node(&mut doc, "Text");
    child(&mut doc, parent, kid);
    doc.apply_from(Origin::Human, Mutation::RemoveNode { id: parent }).unwrap();
    assert_eq!(doc.verify(), Ok(()));
    assert_eq!(doc.get(kid).unwrap().parent, None);
}

#[test]
fn undoing_a_removal_brings_the_children_back() {
    let (mut doc, _, _, button) = small();
    let leaf = node(&mut doc, "Text");
    child(&mut doc, button, leaf);
    let before = doc.to_wire().nodes;
    doc.apply_from(Origin::Human, Mutation::RemoveNode { id: button }).unwrap();
    assert_eq!(doc.get(leaf).unwrap().parent, None);
    doc.undo_last(Origin::Ai).unwrap();
    assert_eq!(doc.to_wire().nodes, before);
    assert_eq!(doc.verify(), Ok(()));
}

#[test]
fn a_node_comes_back_without_what_is_gone_or_taken() {
    let (mut doc, root, label, button) = small();
    let back = uni::node::Node {
        children: vec![label, root, NodeId(99)],
        parent: Some(NodeId(98)),
        ..uni::node::Node::new("Row".to_string())
    };
    let id = NodeId(50);
    let m = Mutation::Reconstruct { id, node: Box::new(back), was_root: false };
    doc.apply_from(Origin::System, m).unwrap();
    assert_eq!(doc.verify(), Ok(()));
    let now = doc.get(id).unwrap();
    assert_eq!((now.parent, now.children.clone()), (None, vec![root]));
    assert_eq!(doc.get(label).unwrap().parent, Some(root));
    assert_eq!(doc.get(root).unwrap().children, vec![label, button]);
    let under = uni::node::Node {
        children: vec![id],
        parent: Some(button),
        ..uni::node::Node::new("Row".to_string())
    };
    let m = Mutation::Reconstruct { id: NodeId(51), node: Box::new(under), was_root: false };
    doc.apply_from(Origin::System, m).unwrap();
    assert_eq!(doc.verify(), Ok(()));
    assert!(doc.get(NodeId(51)).unwrap().children.is_empty());
}

#[test]
fn a_difference_moves_a_node_to_an_older_parent() {
    let mut old = Document::new();
    let a = node(&mut old, "Stack");
    let b = node(&mut old, "Row");
    let c = node(&mut old, "Text");
    child(&mut old, a, b);
    child(&mut old, b, c);
    old.apply_from(Origin::System, Mutation::SetRoot { id: a }).unwrap();
    let mut new = old.clone();
    child(&mut new, a, c);
    let mut doc = old.clone();
    for m in diff(&old, &new) {
        doc.apply_from(Origin::Ai, m).unwrap();
    }
    assert_eq!(doc.get(c).unwrap().parent, Some(a));
    assert_eq!(doc.get(a).unwrap().children, vec![b, c]);
    assert!(doc.get(b).unwrap().children.is_empty());
    assert_eq!(doc.to_wire().nodes, new.to_wire().nodes);
    let mut back = new.clone();
    for m in diff(&new, &old) {
        back.apply_from(Origin::Ai, m).unwrap();
    }
    assert_eq!(back.to_wire().nodes, old.to_wire().nodes);
}

#[test]
fn a_difference_turns_a_chain_over() {
    let mut old = Document::new();
    let a = node(&mut old, "Stack");
    let b = node(&mut old, "Stack");
    let c = node(&mut old, "Stack");
    let mut new = old.clone();
    child(&mut old, a, b);
    child(&mut old, b, c);
    child(&mut new, c, b);
    child(&mut new, b, a);
    let mut doc = old.clone();
    for m in diff(&old, &new) {
        doc.apply_from(Origin::Ai, m).unwrap();
    }
    assert_eq!(doc.to_wire().nodes, new.to_wire().nodes);
}

#[test]
fn a_difference_orphans_what_a_dropped_node_held() {
    let (old, root, label, button) = small();
    let mut new = old.clone();
    new.apply_from(Origin::Human, Mutation::RemoveNode { id: root }).unwrap();
    let mut doc = old.clone();
    for m in diff(&old, &new) {
        doc.apply_from(Origin::Ai, m).unwrap();
    }
    assert_eq!(doc.to_wire().nodes, new.to_wire().nodes);
    assert_eq!((doc.root(), doc.get(label).unwrap().parent), (None, None));
    assert_eq!(doc.get(button).unwrap().parent, None);
}

#[test]
fn a_document_from_elsewhere_is_walked_where_its_links_lead_nowhere_back() {
    let (doc, root, label, button) = small();
    assert!(walks_within(&doc, 3));
    assert!(!walks_within(&doc, 2));
    let mut wire = doc.to_wire();
    wire.nodes[0].1.parent = Some(NodeId(99));
    assert!(walks_within(&Document::from_wire(wire), 3));
    let mut wire = doc.to_wire();
    let at = wire.nodes.iter().position(|(id, _)| *id == button).unwrap();
    wire.nodes[at].1.children.push(root);
    assert!(!walks_within(&Document::from_wire(wire), 1000));
    let mut wire = doc.to_wire();
    let at = wire.nodes.iter().position(|(id, _)| *id == label).unwrap();
    wire.nodes[at].1.parent = Some(label);
    assert!(!walks_within(&Document::from_wire(wire), 1000));
}

#[test]
fn without_a_handler_an_invocation_is_only_logged() {
    let (mut rt, _, _, button) = live();
    let action = Action { name: "unknown".to_string(), args: vec![] };
    rt.edit(Origin::System, Mutation::SetCallback { id: button, event: "click".to_string(), action }).unwrap();
    let nodes = rt.doc().to_wire().nodes;
    let log = rt.doc().audit_log().len();
    assert!(!rt.invoke(button, "click", Origin::Ai, &fl, &engine, &handler));
    assert_eq!(rt.doc().audit_log().len(), log + 1);
    assert_eq!(rt.invoke_counts(), (0, 1));
    assert_eq!(rt.doc().to_wire().nodes, nodes);
    assert_eq!(rt.store().get("went"), None);
}

#[test]
fn the_space_key_clicks_what_has_the_focus() {
    let (mut rt, _, _, _) = live();
    rt.move_focus(true);
    let key = |k: &str| InputEvent::KeyDown { key: k.to_string() };
    assert!(!rt.on_input(&key(" "), &fl, &engine, &handler));
    assert_eq!(rt.invoke_counts(), (0, 0));
    assert!(rt.on_input(&key("Space"), &fl, &engine, &handler));
    assert_eq!(rt.invoke_counts(), (1, 0));
    assert!(rt.on_input(&key("Enter"), &fl, &engine, &handler));
    assert_eq!(rt.invoke_counts(), (2, 0));
}

#[test]
fn a_drag_that_is_over_has_no_translation() {
    let mut r = Recognizer::new(NodeId(1), "drag", GestureKind::Drag { min_distance: p(10.0) });
    let down = InputEvent::PointerDown { x: p(5.0), y: p(5.0), button: PointerButton::Left };
    r.feed(&down, true, &fl);
    let near = InputEvent::PointerMoved { x: p(6.0), y: p(5.0) };
    r.feed(&near, true, &fl);
    assert_eq!(r.translation(), (0, 0));
    let far = InputEvent::PointerMoved { x: p(45.0), y: p(35.0) };
    r.feed(&far, true, &fl);
    assert_eq!(r.translation(), (p(40.0), p(30.0)));
    let up = InputEvent::PointerUp { x: p(45.0), y: p(35.0), button: PointerButton::Left };
    r.feed(&up, true, &fl);
    assert_eq!(r.translation(), (0, 0));
}

#[test]
fn a_change_runs_its_effects_once() {
    let mut g = Graph::new();
    let a = g.add_node(Role::Signal);
    let b = g.add_node(Role::Signal);
    let memo = g.add_node(Role::Memo);
    let direct = g.add_node(Role::Effect);
    let through = g.add_node(Role::Effect);
    let other = g.add_node(Role::Effect);
    let reads = |g: &mut Graph, key: usize, sources: &[usize]| {
        let role = g.begin_run(key);
        for s in sources {
            g.track(*s);
        }
        g.end_run(key, role);
    };
    reads(&mut g, memo, &[a]);
    reads(&mut g, direct, &[a, memo]);
    reads(&mut g, through, &[memo]);
    reads(&mut g, other, &[a]);
    reads(&mut g, other, &[b]);
    g.mark_subscribers_dirty(a);
    assert!(g.begin_flush());
    let mut ran = vec![];
    while let Some(k) = g.next_effect() {
        ran.push(k);
        if k == through {
            reads(&mut g, memo, &[a]);
        }
        reads(&mut g, k, &[memo]);
    }
    g.end_flush();
    ran.sort();
    assert_eq!(ran, vec![direct, through]);
    assert!(!g.is_dirty(direct) && !g.is_dirty(through) && !g.is_dirty(other));
}

#[test]
fn an_animation_takes_its_time_and_lands() {
    let (mut rt, _, _, button) = live();
    set_live(&mut rt, button, "animation", text("500ms linear"));
    assert!(!rt.tick(p(0.1), &fl, &engine, &step, &sample));
    let set = Mutation::SetProp { id: button, key: "width".to_string(), value: Value::Px(p(180.0)) };
    rt.edit(Origin::Human, set).unwrap();
    assert!(rt.tick(p(0.25), &fl, &engine, &step, &sample));
    assert_eq!(props(rt.doc(), button, "width"), Some(Value::Px(p(130.0))));
    let log = rt.doc().audit_log().len();
    assert!(!rt.tick(p(0.25), &fl, &engine, &step, &sample));
    assert_eq!(props(rt.doc(), button, "width"), Some(Value::Px(p(180.0))));
    assert!(rt.implicit_settled());
    let new = &rt.doc().audit_log()[log..];
    assert!(!new.is_empty());
    assert!(new.iter().all(|e| e.origin == Origin::System && matches!(e.mutation, Mutation::SetProp { .. })));
}

#[test]
fn a_node_that_came_later_is_animated_from_where_it_was_seen() {
    let (mut rt, root, _, _) = live();
    let id = NodeId(77);
    rt.edit(Origin::System, Mutation::CreateNode { id, kind: "Rect".to_string() }).unwrap();
    rt.edit(Origin::System, Mutation::AppendChild { parent: root, child: id }).unwrap();
    set_live(&mut rt, id, "animation", text("500ms linear"));
    set_live(&mut rt, id, "width", Value::Px(p(10.0)));
    assert!(!rt.tick(p(0.1), &fl, &engine, &step, &sample));
    set_live(&mut rt, id, "width", Value::Px(p(30.0)));
    assert!(rt.tick(p(0.25), &fl, &engine, &step, &sample));
    assert_eq!(props(rt.doc(), id, "width"), Some(Value::Px(p(20.0))));
}

#[test]
fn a_change_made_without_an_animation_is_not_animated_afterwards() {
    let (mut rt, _, _, button) = live();
    set_live(&mut rt, button, "width", Value::Px(p(180.0)));
    assert!(!rt.tick(p(0.1), &fl, &engine, &step, &sample));
    set_live(&mut rt, button, "animation", text("500ms linear"));
    assert!(!rt.tick(p(0.1), &fl, &engine, &step, &sample));
    assert_eq!(props(rt.doc(), button, "width"), Some(Value::Px(p(180.0))));
}

#[test]
fn a_snapshot_carries_a_store_over() {
    let mut store = Store::new();
    store.set("flag", Value::Bool(true));
    store.set("name", text("a\tb\nc"));
    store.set("size", Value::Px(p(1.5)));
    store.set("tint", Value::Color(0x11223344));
    let mut other = Store::new();
    other.set("flag", Value::Bool(false));
    other.set("kept", Value::Int(7));
    assert_eq!(other.restore(&store.snapshot(&print), &fl), 4);
    for key in ["flag", "name", "size", "tint"] {
        assert_eq!(other.get(key), store.get(key), "{key}");
    }
    assert_eq!(other.get("kept"), Some(Value::Int(7)));
}

#[test]
fn a_resolved_document_is_one_tree() {
    let src = uni::dsl::parse("For { items: $n; Stack { Text { } If { cond: $yes; Button { } } } }", &fl).unwrap();
    let mut store = Store::new();
    store.set("n", Value::Int(3));
    store.set("yes", Value::Bool(true));
    let doc = resolve(&src, &store, &fl);
    assert_eq!(doc.len(), 9);
    let mut seen = walk(&doc);
    seen.sort_by_key(|id| id.0);
    assert_eq!(seen, doc.ids());
}

#[test]
fn documents_that_were_read_can_be_walked() {
    let uni = uni::dsl::parse("Stack { Row { Text { content: \"a\"; } } Button { } }", &fl).unwrap();
    let flutter = uni::flutter_import::parse("Column(children: [Text('a'), Row(child: Text('b'))])", &fl).unwrap();
    let slint = uni::slint_import::parse("component Card { Text { } } Stack { Card { } Card { } }", &fl).unwrap();
    let swift = uni::swiftui_import::parse("VStack { Text(\"a\") HStack { Text(\"b\") } }", &fl).unwrap();
    for doc in [uni, flutter, slint, swift] {
        assert!(can_be_walked(&doc));
        assert!(doc.audit_log().iter().all(|e| e.origin == Origin::System));
        assert_eq!(walk(&doc).len(), doc.len());
    }
}

#[test]
fn a_resolved_document_can_be_walked() {
    let src = uni::dsl::parse("Stack { For { items: $n; Text { content: $name; } } If { cond: $no; Button { } } }", &fl)
        .unwrap();
    let mut store = Store::new();
    store.set("n", Value::Int(3));
    store.set("name", text("x"));
    let mut reactor = uni::resolve::Reactor::new(src, store);
    assert!(reactor.resolved_within(0, &fl).is_none());
    assert!(reactor.is_dirty());
    let doc = reactor.resolved_within(9, &fl).unwrap();
    assert!(can_be_walked(&doc));
    assert_eq!(doc.len(), 4);
    assert!(!reactor.is_dirty());
    assert_eq!(reactor.resolved(&fl), doc);
}

#[test]
fn handlers_run_only_for_callbacks() {
    let (mut rt, root, _, button) = live();
    let asked = std::cell::RefCell::new(vec![]);
    let watch = |name: &str, _: &Store, origin: Origin| -> Option<Store> {
        asked.borrow_mut().push((name.to_string(), origin));
        None
    };
    assert!(!rt.invoke(root, "click", Origin::Human, &fl, &engine, &watch));
    assert!(!rt.invoke(button, "hover", Origin::Human, &fl, &engine, &watch));
    assert!(!rt.on_input(&InputEvent::KeyDown { key: "x".to_string() }, &fl, &engine, &watch));
    assert!(!rt.on_input(&InputEvent::KeyDown { key: "Enter".to_string() }, &fl, &engine, &watch));
    assert!(asked.borrow().is_empty());
    assert!(!rt.invoke(button, "click", Origin::Ai, &fl, &engine, &watch));
    assert_eq!(*asked.borrow(), vec![("go".to_string(), Origin::Ai)]);
}

#[test]
fn an_edit_of_a_live_interface_is_logged_and_keeps_it_sound() {
    let (mut rt, root, label, _) = live();
    let log = rt.doc().audit_log().len();
    let cycle = Mutation::AppendChild { parent: label, child: root };
    assert!(rt.edit(Origin::Ai, cycle).is_err());
    assert_eq!(rt.doc().audit_log().len(), log);
    rt.edit(Origin::Ai, Mutation::RemoveNode { id: root }).unwrap();
    assert_eq!(rt.doc().audit_log().len(), log + 1);
    assert_eq!(rt.doc().verify(), Ok(()));
    assert!(!rt.tick(p(0.1), &fl, &engine, &step, &sample));
}

#[test]
fn a_copy_of_a_store_is_its_own() {
    let mut store = Store::new();
    store.set("a", Value::Int(1));
    let mut copy = store.clone();
    copy.set("a", Value::Int(2));
    assert_eq!(store.get("a"), Some(Value::Int(1)));
    assert_eq!((store.change_tick(), copy.change_tick()), (1, 2));
}

#[test]
fn handlers_are_used_up_by_a_call() {
    let (mut rt, _, _, button) = live();
    let given = vec!["once".to_string()];
    let use_up = move |name: &str, store: &Store, _: Origin| -> Option<Store> {
        let mut next = store.clone();
        for word in given {
            next.set(name, text(&word));
        }
        Some(next)
    };
    assert!(rt.invoke(button, "click", Origin::Human, &fl, &engine, use_up));
    assert_eq!(rt.store().get("go"), Some(text("once")));
}
