use std::cell::RefCell;
use std::collections::HashMap;
use std::rc::Rc;

use taffy::prelude::{
    length, AlignItems, AvailableSpace, FlexDirection, FlexWrap, JustifyContent, Position, Rect, Size, Style,
    TaffyTree,
};
use taffy::compute_leaf_layout;

use uni::a11y::{build_tree, TreeUpdate};
use uni::animation::{parse_animation, Animation, Curve};
use uni::canvas::LightOp;
use uni::dsl::ParseError;
use uni::env::{Env, WidthClass};
use uni::float::FloatOp;
use uni::gesture::{GestureKind, Recognizer};
use uni::host::CanvasHost;
use uni::id_set::IdSet;
use uni::input::{InputEvent, PointerButton};
use uni::ir::{Document, Mutation, Origin};
use uni::layout::{hit_test, Align, BoxStyle, Flow, Frame, Justify, Layout, Plan};
use uni::node::NodeId;
use uni::runtime::{Runtime, Spring, SpringState};
use uni::store::Store;
use uni::value::{Action, Binding, Value};

fn p(x: f32) -> u32 {
    x.to_bits()
}
fn px(b: u32) -> f32 {
    f32::from_bits(b)
}

fn taffy_style(s: &BoxStyle) -> Style {
    let side = |x: Option<u32>| match x {
        Some(b) => length(px(b)),
        None => taffy::style_helpers::auto(),
    };
    let mut style = Style { size: Size { width: side(s.width), height: side(s.height) }, ..Style::default() };
    style.flex_grow = px(s.grow);
    if let Some(inset) = s.inset {
        let edge = |x: Option<u32>| match x {
            Some(b) => length(px(b)),
            None => taffy::style_helpers::auto(),
        };
        style.position = Position::Absolute;
        style.inset = Rect {
            left: edge(inset.left),
            right: edge(inset.right),
            top: edge(inset.top),
            bottom: edge(inset.bottom),
        };
    }
    match s.flow {
        Flow::Leaf => {}
        Flow::Column => style.flex_direction = FlexDirection::Column,
        Flow::Row => style.flex_direction = FlexDirection::Row,
        Flow::Wrap => {
            style.flex_direction = FlexDirection::Row;
            style.flex_wrap = FlexWrap::Wrap;
        }
    }
    if let Some(p) = s.padding {
        style.padding = Rect { left: length(px(p)), right: length(px(p)), top: length(px(p)), bottom: length(px(p)) };
    }
    if let Some(g) = s.gap {
        style.gap = Size { width: length(px(g)), height: length(px(g)) };
    }
    if let Some(a) = s.align {
        style.align_items = match a {
            Align::Start => AlignItems::START,
            Align::Center => AlignItems::CENTER,
            Align::End => AlignItems::END,
            Align::Stretch => AlignItems::STRETCH,
        };
    }
    if let Some(j) = s.justify {
        style.justify_content = match j {
            Justify::Start => JustifyContent::START,
            Justify::Center => JustifyContent::CENTER,
            Justify::End => JustifyContent::END,
            Justify::Stretch => JustifyContent::STRETCH,
            Justify::SpaceBetween => JustifyContent::SPACE_BETWEEN,
            Justify::SpaceAround => JustifyContent::SPACE_AROUND,
            Justify::SpaceEvenly => JustifyContent::SPACE_EVENLY,
        };
    }
    style
}

fn taffy_build(p: &Plan, tree: &mut TaffyTree<Option<(u32, u32)>>) -> Option<taffy::NodeId> {
    let style = taffy_style(&p.style);
    if p.style.flow == Flow::Leaf {
        tree.new_leaf_with_context(style, p.text).ok()
    } else {
        let children: Vec<taffy::NodeId> = p.children.iter().filter_map(|c| taffy_build(c, tree)).collect();
        tree.new_with_children(style, &children).ok()
    }
}

fn taffy_collect(tree: &TaffyTree<Option<(u32, u32)>>, id: taffy::NodeId, out: &mut Vec<Frame>) {
    let l = tree.layout(id).unwrap();
    out.push(Frame {
        x: l.location.x.to_bits(),
        y: l.location.y.to_bits(),
        w: l.size.width.to_bits(),
        h: l.size.height.to_bits(),
    });
    for child in tree.children(id).unwrap() {
        taffy_collect(tree, child, out);
    }
}

fn engine(plan: &Plan) -> Option<Vec<Frame>> {
    let mut tree: TaffyTree<Option<(u32, u32)>> = TaffyTree::new();
    let root = taffy_build(plan, &mut tree)?;
    let side = |x: Option<u32>| match x {
        Some(b) => AvailableSpace::Definite(px(b)),
        None => AvailableSpace::MaxContent,
    };
    let available = Size { width: side(plan.style.width), height: side(plan.style.height) };
    tree.compute_layout_with_measure(root, available, |inputs, _node, context, style| {
        let text = context.and_then(|c| *c).map(|(w, h)| (px(w), px(h))).unwrap_or((0.0, 0.0));
        compute_leaf_layout(
            inputs,
            style,
            |_, _| 0.0,
            |known, _space| Size { width: known.width.unwrap_or(text.0), height: known.height.unwrap_or(text.1) },
        )
    })
    .ok()?;
    let mut out = Vec::new();
    taffy_collect(&tree, root, &mut out);
    Some(out)
}

struct Placed {
    x: f32,
    y: f32,
    w: f32,
    h: f32,
}

fn placed(l: &Layout, id: NodeId) -> Placed {
    let r = l.rect(id).unwrap();
    Placed { x: px(r.x), y: px(r.y), w: px(r.w), h: px(r.h) }
}

type Handler = Box<dyn FnMut(&mut Store, Origin)>;

struct Rt {
    rt: Runtime,
    registry: RefCell<HashMap<String, Handler>>,
}

fn light(op: LightOp) -> u32 {
    match op {
        LightOp::Linear { packed, channel } => {
            let c = ((packed >> (24 - 8 * channel as u32)) & 0xff) as f32 / 255.0;
            let linear = if channel == 3 {
                c
            } else if c <= 0.04045 {
                c / 12.92
            } else {
                ((c + 0.055) / 1.055).powf(2.4)
            };
            linear.to_bits()
        }
        LightOp::Packed { r, g, b, a } => {
            let byte = |c: f32| (c.clamp(0.0, 1.0) * 255.0).round() as u32;
            let curve = |bits: u32| {
                let c = f32::from_bits(bits);
                if c <= 0.0031308 {
                    c * 12.92
                } else {
                    1.055 * c.powf(1.0 / 2.4) - 0.055
                }
            };
            (byte(curve(r)) << 24) | (byte(curve(g)) << 16) | (byte(curve(b)) << 8) | byte(f32::from_bits(a))
        }
    }
}

fn spatial() -> Spring {
    Spring { response: p(0.35), damping: p(0.825) }
}

fn step(spring: Spring, state: SpringState, dt: u32, near: u32) -> (SpringState, bool) {
    let omega = std::f32::consts::TAU / px(spring.response);
    let (value, velocity, target) = (px(state.value), px(state.velocity), px(state.target));
    let pull = omega * omega * (target - value) - 2.0 * px(spring.damping) * omega * velocity;
    let velocity = velocity + pull * px(dt);
    let value = value + velocity * px(dt);
    let settled = (value - target).abs() < px(near) && velocity.abs() < px(near);
    (SpringState { value: p(value), velocity: p(velocity), target: state.target }, settled)
}

fn sample(anim: Animation, elapsed: u32) -> u32 {
    let t = (px(elapsed) / px(anim.duration)).clamp(0.0, 1.0);
    p(match anim.curve {
        Curve::Linear => t,
        Curve::EaseIn => t * t,
        Curve::EaseOut => t * (2.0 - t),
        Curve::EaseInOut => t * t * (3.0 - 2.0 * t),
        Curve::Spring { damping, .. } => {
            let swing = |t: f32| 1.0 - (-6.0 * px(damping) * t).exp() * (4.0 * t).cos();
            swing(t) / swing(1.0)
        }
    })
}

fn sample_at(anim: Animation, t: f32) -> f32 {
    px(sample(anim, p(t)))
}

impl Rt {
    fn new(doc: Document, viewport: (f32, f32)) -> Rt {
        Rt {
            rt: Runtime::new(doc, (p(viewport.0), p(viewport.1)), &fl, &engine),
            registry: RefCell::new(HashMap::new()),
        }
    }

    fn from_uni(src: &str, viewport: (f32, f32)) -> Result<Rt, ParseError> {
        let rt = Runtime::from_uni(src, (p(viewport.0), p(viewport.1)), &fl, &engine)?;
        Ok(Rt { rt, registry: RefCell::new(HashMap::new()) })
    }

    fn register(&mut self, name: &str, handler: Handler) {
        self.registry.borrow_mut().insert(name.to_string(), handler);
    }

    fn with<T>(&mut self, f: impl FnOnce(&mut Runtime, &dyn Fn(&str, &Store, Origin) -> Option<Store>) -> T) -> T {
        let registry = &self.registry;
        let run = |name: &str, store: &Store, origin: Origin| {
            let mut handlers = registry.borrow_mut();
            let handler = handlers.get_mut(name)?;
            let mut next = store.clone();
            handler(&mut next, origin);
            Some(next)
        };
        f(&mut self.rt, &run)
    }

    fn doc(&self) -> &Document {
        self.rt.doc()
    }

    fn store(&self) -> &Store {
        self.rt.store()
    }

    fn store_mut(&mut self) -> &mut Store {
        self.rt.store_mut()
    }

    fn env(&self) -> Env {
        self.rt.env()
    }

    fn layout(&self) -> &Layout {
        self.rt.layout()
    }

    fn sync_bindings(&mut self) {
        self.rt.sync_bindings()
    }

    fn set_viewport(&mut self, viewport: (f32, f32)) {
        self.rt.set_viewport((p(viewport.0), p(viewport.1)), &fl, &engine)
    }

    fn dispatch(&mut self, target: NodeId, event: &str, origin: Origin) -> bool {
        self.invoke(target, event, origin)
    }

    fn invoke(&mut self, target: NodeId, event: &str, origin: Origin) -> bool {
        self.with(|rt, run| rt.invoke(target, event, origin, &fl, &engine, &run))
    }

    fn ai_fire(&mut self, target: NodeId, event: &str) -> bool {
        self.with(|rt, run| rt.ai_fire(target, event, &fl, &engine, &run))
    }

    fn on_input(&mut self, input: &InputEvent) -> bool {
        self.with(|rt, run| rt.on_input(input, &fl, &engine, &run))
    }

    fn actions(&self) -> Vec<(NodeId, String, String)> {
        self.rt.actions()
    }

    fn invoke_counts(&self) -> (usize, usize) {
        self.rt.invoke_counts()
    }

    fn focused(&self) -> Option<NodeId> {
        self.rt.focused()
    }

    fn move_focus(&mut self, forward: bool) -> bool {
        self.rt.move_focus(forward)
    }

    fn a11y_update(&self) -> TreeUpdate {
        self.rt.a11y_update(&fl)
    }

    fn dirty_nodes(&self) -> &IdSet {
        self.rt.dirty_nodes()
    }

    fn mark_dirty_from_log(&mut self) {
        self.rt.mark_dirty_from_log()
    }

    fn relayout(&mut self) {
        self.rt.relayout(&fl, &engine)
    }

    fn route(&self) -> Option<&str> {
        self.rt.route()
    }

    fn nav_stack(&self) -> &[String] {
        self.rt.nav_stack()
    }

    fn navigate(&mut self, route: &str, origin: Origin) -> bool {
        self.rt.navigate(route, origin, &fl, &engine)
    }

    fn back(&mut self, origin: Origin) -> bool {
        self.rt.back(origin, &fl, &engine)
    }

    fn present(&mut self, key: &str, origin: Origin) -> bool {
        self.rt.present(key, origin, &fl, &engine)
    }

    fn dismiss(&mut self, key: &str, origin: Origin) -> bool {
        self.rt.dismiss(key, origin, &fl, &engine)
    }

    fn is_presented(&self, key: &str) -> bool {
        self.rt.is_presented(key)
    }

    fn animate(&mut self, id: NodeId, prop: &str, from: f32, target: f32, spring: Spring) {
        self.rt.animate(id, prop, p(from), p(target), spring)
    }

    fn animations_settled(&self) -> bool {
        self.rt.animations_settled()
    }

    fn implicit_settled(&self) -> bool {
        self.rt.implicit_settled()
    }

    fn tick_animations(&mut self, dt: f32) -> bool {
        self.rt.tick_animations(p(dt), &fl, &engine, &step)
    }

    fn tick(&mut self, dt: f32) -> bool {
        self.rt.tick(p(dt), &fl, &engine, &step, &sample)
    }

    fn add_gesture(&mut self, node: NodeId, action: &str, kind: GestureKind) -> usize {
        self.rt.add_gesture(node, action, kind)
    }

    fn gesture(&self, idx: usize) -> Option<&Recognizer> {
        self.rt.gesture(idx)
    }

    fn feed_gesture(&mut self, input: &InputEvent, origin: Origin) -> bool {
        self.with(|rt, run| rt.feed_gesture(input, origin, &fl, &engine, &run))
    }

    fn tick_gestures(&mut self, dt: f32, origin: Origin) -> bool {
        self.with(|rt, run| rt.tick_gestures(p(dt), origin, &fl, &engine, &run))
    }

    fn pinch(&mut self, delta: f32, origin: Origin) -> bool {
        self.with(|rt, run| rt.pinch(p(delta), origin, &fl, &engine, &run))
    }

    fn rotate(&mut self, delta: f32, origin: Origin) -> bool {
        self.with(|rt, run| rt.rotate(p(delta), origin, &fl, &engine, &run))
    }

    fn end_continuous_gestures(&mut self, origin: Origin) -> bool {
        self.with(|rt, run| rt.end_continuous_gestures(origin, &fl, &engine, &run))
    }
}

fn down(x: f32, y: f32) -> InputEvent {
    InputEvent::PointerDown { x: p(x), y: p(y), button: PointerButton::Left }
}

fn up(x: f32, y: f32) -> InputEvent {
    InputEvent::PointerUp { x: p(x), y: p(y), button: PointerButton::Left }
}

fn moved(x: f32, y: f32) -> InputEvent {
    InputEvent::PointerMoved { x: p(x), y: p(y) }
}

fn host(src: &str, width: u32, height: u32) -> CanvasHost {
    CanvasHost::from_uni(src, width, height, &fl, &engine, &light).unwrap()
}

fn fl(op: &FloatOp) -> Option<u64> {
    let d = |x: f64| Some(x.to_bits());
    let s = |x: f32| Some(x.to_bits() as u64);
    let f = f32::from_bits;
    let g = f64::from_bits;
    match op {
        FloatOp::Read { text } => text.parse::<f64>().ok().map(f64::to_bits),
        FloatOp::ReadSingle { text } => text.parse::<f32>().ok().map(|x| x.to_bits() as u64),
        FloatOp::Narrow { double } => s(g(*double) as f32),
        FloatOp::Widen { single } => d(f(*single) as f64),
        FloatOp::FromInt { value } => d(*value as f64),
        FloatOp::Add { a, b } => d(g(*a) + g(*b)),
        FloatOp::Sub { a, b } => d(g(*a) - g(*b)),
        FloatOp::Mul { a, b } => d(g(*a) * g(*b)),
        FloatOp::Div { a, b } => d(g(*a) / g(*b)),
        FloatOp::AddSingle { x, y } => s(f(*x) + f(*y)),
        FloatOp::SubSingle { x, y } => s(f(*x) - f(*y)),
        FloatOp::MulSingle { x, y } => s(f(*x) * f(*y)),
        FloatOp::DivSingle { x, y } => s(f(*x) / f(*y)),
        FloatOp::SqrtSingle { x } => s(f(*x).sqrt()),
        FloatOp::FromIntSingle { value } => s(*value as f32),
        FloatOp::CeilSingle { x } => s(f(*x).ceil()),
        FloatOp::RoundSingle { x } => s(f(*x).round()),
        FloatOp::ExpSingle { x } => s(f(*x).exp()),
        FloatOp::PowSingle { x, y } => s(f(*x).powf(f(*y))),
        FloatOp::AngleSingle { y, x } => s(f(*y).atan2(f(*x))),
    }
}

const COUNTER_UNI: &str = r#"
    Stack { padding: 24px; gap: 16px; background: #0a0a0a;
      Text { content: $label; size: 32px; color: #ffffff; }
      Button { width: 200px; height: 64px; color: #7d39eb; corner_radius: 16px;
               on click: increment();
               Text { content: "Click me"; size: 20px; color: #ffffff; } }
    }
"#;

fn label_id(doc: &Document) -> NodeId {
    let root = doc.root().unwrap();
    doc.get(root).unwrap().children[0]
}

fn button_id(doc: &Document) -> NodeId {
    let root = doc.root().unwrap();
    doc.get(root).unwrap().children[1]
}

fn counter_runtime() -> Rt {
    let mut rt = Rt::from_uni(COUNTER_UNI, (800.0, 600.0)).expect("counter .uni parses");
    rt.register(
        "increment",
        Box::new(move |store: &mut Store, _origin: Origin| {
            let n = match store.get("count") {
                Some(Value::Int(n)) => n + 1,
                _ => 1,
            };
            store.set("count", Value::Int(n));
            store.set("label", Value::Text(format!("Clicks: {n}")));
        }),
    );
    rt
}

#[test]
fn counter_uni_parses_to_expected_tree() {
    let rt = Rt::from_uni(COUNTER_UNI, (800.0, 600.0)).unwrap();
    let doc = rt.doc();
    let root = doc.root().unwrap();
    assert_eq!(doc.get(root).unwrap().kind, "Stack");
    let label = label_id(doc);
    let button = button_id(doc);
    assert_eq!(doc.get(label).unwrap().kind, "Text");
    assert_eq!(doc.get(button).unwrap().kind, "Button");
    assert_eq!(
        doc.get(button)
            .unwrap()
            .callbacks
            .get("click")
            .unwrap()
            .name,
        "increment"
    );
    assert_eq!(
        doc.get(label).unwrap().bindings.get("content"),
        Some(&Binding {
            expr: "label".into()
        })
    );
}

#[test]
fn sync_bindings_pushes_store_value_into_bound_prop() {
    let mut rt = Rt::from_uni(COUNTER_UNI, (800.0, 600.0)).unwrap();
    let label = label_id(rt.doc());

    rt.store_mut()
        .set("label", Value::Text("from state".into()));
    rt.sync_bindings();

    assert_eq!(
        rt.doc().get(label).unwrap().props.get("content"),
        Some(&Value::Text("from state".into()))
    );
    assert_eq!(label_id(rt.doc()), label);
    let last_setprop = rt
        .doc()
        .audit_log()
        .iter()
        .rev()
        .find(|e| matches!(e.mutation, Mutation::SetProp { .. }))
        .unwrap();
    assert_eq!(last_setprop.origin, Origin::System);
}

#[test]
fn human_fire_runs_handler_and_updates_bound_label_via_state() {
    let mut rt = counter_runtime();
    let button = button_id(rt.doc());

    let handled = rt.dispatch(button, "click", Origin::Human);
    assert!(handled);
    assert_eq!(rt.store().get("count"), Some(Value::Int(1)));

    let label = label_id(rt.doc());
    assert_eq!(
        rt.doc().get(label).unwrap().props.get("content"),
        Some(&Value::Text("Clicks: 1".into()))
    );

    let (human, ai) = rt.invoke_counts();
    assert_eq!((human, ai), (1, 0));
}

#[test]
fn ai_fire_takes_the_same_audited_path_as_human() {
    let mut rt = counter_runtime();
    let button = button_id(rt.doc());

    assert!(rt.dispatch(button, "click", Origin::Human));
    let label = label_id(rt.doc());
    assert_eq!(
        rt.doc().get(label).unwrap().props.get("content"),
        Some(&Value::Text("Clicks: 1".into())),
        "bound label reflects state after the Human path"
    );

    assert!(rt.ai_fire(button, "click"));

    assert_eq!(rt.store().get("count"), Some(Value::Int(2)));
    assert_eq!(
        rt.doc().get(label).unwrap().props.get("content"),
        Some(&Value::Text("Clicks: 2".into())),
        "bound label reflects state after the Ai path"
    );

    let (human, ai) = rt.invoke_counts();
    assert_eq!((human, ai), (1, 1));
}

#[test]
fn ai_can_invoke_the_same_action_a_human_can() {
    let mut rt = counter_runtime();
    let button = button_id(rt.doc());

    let actions = rt.actions();
    assert_eq!(
        actions,
        vec![(button, "click".to_string(), "increment".to_string())],
        "actions() lists the (node, event, action) the UI exposes"
    );

    let (node, event, _name) = &actions[0];
    let ran = rt.invoke(*node, event, Origin::Ai);
    assert!(ran, "the AI-invoked action ran its registered handler");
    assert_eq!(rt.store().get("count"), Some(Value::Int(1)));

    assert!(rt.invoke(*node, event, Origin::Human));
    assert_eq!(rt.store().get("count"), Some(Value::Int(2)));

    let (human, ai) = rt.invoke_counts();
    assert_eq!((human, ai), (1, 1));
}

#[test]
fn pointer_down_over_button_bubbles_and_fires() {
    let mut rt = counter_runtime();
    let button = button_id(rt.doc());
    let r = placed(rt.layout(), button);
    let point = (r.x + r.w / 2.0, r.y + r.h / 2.0);

    let handled = rt.on_input(&down(point.0, point.1));
    assert!(handled, "click over the button should be handled");
    assert_eq!(rt.store().get("count"), Some(Value::Int(1)));
    let (human, _ai) = rt.invoke_counts();
    assert_eq!(human, 1);
}

#[test]
fn click_on_child_bubbles_to_parent_handler() {
    let mut doc = Document::new();
    let row = doc.fresh_id();
    doc.apply_from(
        Origin::System,
        Mutation::CreateNode {
            id: row,
            kind: "Row".into(),
        },
    )
    .unwrap();
    doc.apply_from(Origin::System, Mutation::SetRoot { id: row })
        .unwrap();
    doc.apply_from(
        Origin::System,
        Mutation::SetCallback {
            id: row,
            event: "click".into(),
            action: Action {
                name: "ping".into(),
                args: vec![],
            },
        },
    )
    .unwrap();

    let child = doc.fresh_id();
    doc.apply_from(
        Origin::System,
        Mutation::CreateNode {
            id: child,
            kind: "Rect".into(),
        },
    )
    .unwrap();
    doc.apply_from(
        Origin::System,
        Mutation::SetProp {
            id: child,
            key: "width".into(),
            value: Value::Px(p(100.0)),
        },
    )
    .unwrap();
    doc.apply_from(
        Origin::System,
        Mutation::SetProp {
            id: child,
            key: "height".into(),
            value: Value::Px(p(100.0)),
        },
    )
    .unwrap();
    doc.apply_from(Origin::System, Mutation::AppendChild { parent: row, child })
        .unwrap();

    let mut rt = Rt::new(doc, (400.0, 400.0));
    let pinged = Rc::new(RefCell::new(0i64));
    let bump = pinged.clone();
    rt.register(
        "ping",
        Box::new(move |_store: &mut Store, _origin: Origin| {
            *bump.borrow_mut() += 1;
        }),
    );

    assert!(!rt.doc().get(child).unwrap().callbacks.contains_key("click"));

    let r = placed(rt.layout(), child);
    let point = (r.x + r.w / 2.0, r.y + r.h / 2.0);
    assert_eq!(hit_test(rt.layout(), (p(point.0), p(point.1)), &fl), Some(child));

    assert!(rt.on_input(&down(point.0, point.1)));
    assert_eq!(*pinged.borrow(), 1, "click bubbled up to the Row handler");
}

#[test]
fn click_on_empty_space_does_nothing() {
    let mut rt = counter_runtime();
    let handled = rt.on_input(&down(799.0, 599.0));
    assert!(!handled);
    assert_eq!(rt.store().get("count"), None);
    let (human, ai) = rt.invoke_counts();
    assert_eq!((human, ai), (0, 0));
}

#[test]
fn env_tracks_viewport_size_class() {
    let rt = Rt::new(Document::new(), (400.0, 800.0));
    assert_eq!(rt.env().width_class(), WidthClass::Compact);

    let mut rt2 = Rt::new(Document::new(), (400.0, 800.0));
    rt2.set_viewport((1024.0, 768.0));
    assert_eq!(rt2.env().width_class(), WidthClass::Expanded);
}

#[test]
fn animate_drives_prop_toward_target() {
    let mut doc = Document::new();
    let id = doc.fresh_id();
    doc.apply_from(
        Origin::System,
        Mutation::CreateNode {
            id,
            kind: "Rect".into(),
        },
    )
    .unwrap();
    doc.apply_from(Origin::System, Mutation::SetRoot { id })
        .unwrap();

    let mut rt = Rt::new(doc, (800.0, 600.0));
    rt.animate(id, "width", 0.0, 200.0, spatial());

    assert!(!rt.animations_settled(), "animation should be running");

    let mut settled = false;
    for _ in 0..10_000 {
        if !rt.tick_animations(1.0 / 60.0) {
            settled = true;
            break;
        }
    }
    assert!(settled, "spring should settle in finite steps");
    let val = rt.doc().get(id).unwrap().props.get("width").cloned();
    match val {
        Some(Value::Px(b)) => assert!((px(b) - 200.0).abs() < 1.0, "width={}", px(b)),
        other => panic!("expected Px, got {other:?}"),
    }
}

fn animated_rect(desc: &str, width: f32) -> (Rt, NodeId) {
    let mut doc = Document::new();
    let id = doc.fresh_id();
    doc.apply_from(
        Origin::System,
        Mutation::CreateNode {
            id,
            kind: "Rect".into(),
        },
    )
    .unwrap();
    doc.apply_from(Origin::System, Mutation::SetRoot { id })
        .unwrap();
    doc.apply_from(
        Origin::System,
        Mutation::SetProp {
            id,
            key: "animation".into(),
            value: Value::Text(desc.into()),
        },
    )
    .unwrap();
    doc.apply_from(
        Origin::System,
        Mutation::SetProp {
            id,
            key: "width".into(),
            value: Value::Px(p(width)),
        },
    )
    .unwrap();
    let rt = Rt::new(doc, (800.0, 600.0));
    (rt, id)
}

fn width_of(rt: &Rt, id: NodeId) -> f32 {
    match rt.doc().get(id).unwrap().props.get("width") {
        Some(Value::Px(v)) => px(*v),
        other => panic!("expected Px width, got {other:?}"),
    }
}

#[test]
fn implicit_prop_change_interpolates_across_ticks_then_settles() {
    let (mut rt, id) = animated_rect("300ms linear", 0.0);

    rt.rt
        .edit(
            Origin::System,
            Mutation::SetProp {
                id,
                key: "width".into(),
                value: Value::Px(p(300.0)),
            },
        )
        .unwrap();

    let dt = 1.0 / 60.0;
    let running = rt.tick(dt);
    assert!(running, "an implicit animation should be in flight");
    assert!(!rt.implicit_settled());
    let after_one = width_of(&rt, id);
    assert!(
        after_one > 0.0 && after_one < 300.0,
        "width should be mid-flight after one tick, got {after_one}"
    );

    let mut prev = after_one;
    let mut steps = 1;
    while rt.tick(dt) {
        let now = width_of(&rt, id);
        assert!(
            now + 1e-3 >= prev,
            "linear interpolation should be monotonic up: {prev} -> {now}"
        );
        prev = now;
        steps += 1;
        assert!(steps < 1000, "should settle in finite ticks");
    }

    assert!(rt.implicit_settled(), "animation removed when done");
    let final_w = width_of(&rt, id);
    assert!(
        (final_w - 300.0).abs() < 1e-3,
        "reaches the target exactly, got {final_w}"
    );
    assert!(steps > 5, "should span many ticks, took {steps}");
}

#[test]
fn no_descriptor_means_no_implicit_animation() {
    let mut doc = Document::new();
    let id = doc.fresh_id();
    doc.apply_from(
        Origin::System,
        Mutation::CreateNode {
            id,
            kind: "Rect".into(),
        },
    )
    .unwrap();
    doc.apply_from(Origin::System, Mutation::SetRoot { id })
        .unwrap();
    doc.apply_from(
        Origin::System,
        Mutation::SetProp {
            id,
            key: "width".into(),
            value: Value::Px(p(10.0)),
        },
    )
    .unwrap();
    let mut rt = Rt::new(doc, (800.0, 600.0));

    rt.rt
        .edit(
            Origin::System,
            Mutation::SetProp {
                id,
                key: "width".into(),
                value: Value::Px(p(500.0)),
            },
        )
        .unwrap();
    let running = rt.tick(1.0 / 60.0);
    assert!(!running, "no descriptor → nothing animates");
    assert!(rt.implicit_settled());
    assert_eq!(width_of(&rt, id), 500.0);
}

#[test]
fn presented_gain_and_loss_animates_opacity() {
    let (mut rt, id) = animated_rect("200ms linear", 50.0);

    rt.rt
        .edit(
            Origin::System,
            Mutation::SetProp {
                id,
                key: "presented".into(),
                value: Value::Bool(true),
            },
        )
        .unwrap();
    let dt = 1.0 / 60.0;
    assert!(rt.tick(dt), "fade-in should be running");
    let op_in = match rt.doc().get(id).unwrap().props.get("opacity") {
        Some(Value::Px(v)) => px(*v),
        other => panic!("expected opacity Px, got {other:?}"),
    };
    assert!(
        op_in > 0.0 && op_in < 1.0,
        "opacity mid fade-in, got {op_in}"
    );
    while rt.tick(dt) {}
    let op_done = match rt.doc().get(id).unwrap().props.get("opacity") {
        Some(Value::Px(v)) => px(*v),
        other => panic!("{other:?}"),
    };
    assert!((op_done - 1.0).abs() < 1e-3, "fades in to 1, got {op_done}");

    rt.rt
        .edit(
            Origin::System,
            Mutation::SetProp {
                id,
                key: "presented".into(),
                value: Value::Bool(false),
            },
        )
        .unwrap();
    assert!(rt.tick(dt), "fade-out should be running");
    while rt.tick(dt) {}
    let op_out = match rt.doc().get(id).unwrap().props.get("opacity") {
        Some(Value::Px(v)) => px(*v),
        other => panic!("{other:?}"),
    };
    assert!(op_out.abs() < 1e-3, "fades out to 0, got {op_out}");
}

#[test]
fn spring_curve_uses_uni_spring_and_reaches_target() {
    let anim = parse_animation("100ms spring", &fl);
    assert!(matches!(anim.curve, Curve::Spring { .. }));
    assert!(sample_at(anim, 0.0).abs() < 1e-3);
    let at_end = sample_at(anim, px(anim.duration));
    assert!(
        (at_end - 1.0).abs() < 1e-3,
        "spring sample reaches 1 at duration, got {at_end}"
    );

    let (mut rt, id) = animated_rect("100ms spring", 0.0);
    rt.rt
        .edit(
            Origin::System,
            Mutation::SetProp {
                id,
                key: "width".into(),
                value: Value::Px(p(120.0)),
            },
        )
        .unwrap();
    let dt = 1.0 / 120.0;
    let mut ticks = 0;
    while rt.tick(dt) {
        ticks += 1;
        assert!(ticks < 1000);
    }
    assert!(ticks > 1, "spring animation spans multiple ticks");
    assert!((width_of(&rt, id) - 120.0).abs() < 1e-3);
}

#[test]
fn midflight_change_redirects_and_reaches_new_target() {
    let (mut rt, id) = animated_rect("300ms linear", 0.0);
    rt.rt
        .edit(
            Origin::System,
            Mutation::SetProp {
                id,
                key: "width".into(),
                value: Value::Px(p(300.0)),
            },
        )
        .unwrap();
    let dt = 1.0 / 60.0;
    for _ in 0..5 {
        rt.tick(dt);
    }
    let mid = width_of(&rt, id);
    assert!(mid > 0.0 && mid < 300.0);

    rt.rt
        .edit(
            Origin::System,
            Mutation::SetProp {
                id,
                key: "width".into(),
                value: Value::Px(p(100.0)),
            },
        )
        .unwrap();
    while rt.tick(dt) {}
    assert!(
        (width_of(&rt, id) - 100.0).abs() < 1e-3,
        "redirected animation reaches the new target"
    );
}

#[test]
fn a11y_tree_built_headless() {
    let rt =
        Rt::from_uni(r#"Stack { Text { content: "Hello"; } }"#, (800.0, 600.0)).unwrap();
    let update = build_tree(rt.doc(), rt.layout(), None, &fl);
    assert!(
        update.nodes.len() >= 3,
        "expected window+Stack+Text in a11y tree"
    );
}

#[test]
fn a11y_commit_payload_tracks_focus() {
    let (doc, btns) = focusable_doc(2);
    let mut rt = Rt::new(doc, (800.0, 600.0));

    let before = rt.a11y_update();
    assert!(
        before.focus != build_tree(rt.doc(), rt.layout(), Some(btns[0]), &fl).focus,
        "an unfocused tree differs from one focused on a real node"
    );

    rt.move_focus(true);
    assert_eq!(rt.focused(), Some(btns[0]));
    let after = rt.a11y_update();
    let want = build_tree(rt.doc(), rt.layout(), Some(btns[0]), &fl);
    assert_eq!(
        after.focus, want.focus,
        "commit payload focuses the focused node"
    );
}

#[test]
fn dispatch_populates_then_drains_dirty_set() {
    let mut rt = counter_runtime();
    let button = button_id(rt.doc());
    let label = label_id(rt.doc());

    assert!(
        rt.dirty_nodes().is_empty(),
        "starts clean after initial layout"
    );

    assert!(rt.dispatch(button, "click", Origin::Human));
    assert!(
        rt.dirty_nodes().is_empty(),
        "relayout drains the dirty set after recomputing"
    );

    rt.rt
        .edit(
            Origin::System,
            Mutation::SetProp {
                id: label,
                key: "size".into(),
                value: Value::Px(p(40.0)),
            },
        )
        .unwrap();
    rt.mark_dirty_from_log();
    assert!(
        rt.dirty_nodes().contains(&label),
        "the touched label id is recorded in the dirty set"
    );
}

#[test]
fn clean_relayout_short_circuits() {
    let (doc, _btns) = focusable_doc(2);
    let mut rt = Rt::new(doc, (800.0, 600.0));

    let order_before = rt.layout().order().to_vec();
    assert!(rt.dirty_nodes().is_empty());
    rt.relayout(); // nothing dirty → short-circuit
    assert_eq!(
        rt.layout().order(),
        order_before.as_slice(),
        "clean relayout preserves the existing layout"
    );
}

fn focusable_doc(count: usize) -> (Document, Vec<NodeId>) {
    let mut doc = Document::new();
    let row = doc.fresh_id();
    doc.apply_from(
        Origin::System,
        Mutation::CreateNode {
            id: row,
            kind: "Row".into(),
        },
    )
    .unwrap();
    doc.apply_from(Origin::System, Mutation::SetRoot { id: row })
        .unwrap();

    let mut ids = Vec::new();
    for i in 0..count {
        let btn = doc.fresh_id();
        doc.apply_from(
            Origin::System,
            Mutation::CreateNode {
                id: btn,
                kind: "Stack".into(),
            },
        )
        .unwrap();
        doc.apply_from(
            Origin::System,
            Mutation::SetProp {
                id: btn,
                key: "width".into(),
                value: Value::Px(p(60.0)),
            },
        )
        .unwrap();
        doc.apply_from(
            Origin::System,
            Mutation::SetProp {
                id: btn,
                key: "height".into(),
                value: Value::Px(p(40.0)),
            },
        )
        .unwrap();
        doc.apply_from(
            Origin::System,
            Mutation::SetCallback {
                id: btn,
                event: "click".into(),
                action: Action {
                    name: format!("hit_{i}"),
                    args: vec![],
                },
            },
        )
        .unwrap();
        doc.apply_from(
            Origin::System,
            Mutation::AppendChild {
                parent: row,
                child: btn,
            },
        )
        .unwrap();
        ids.push(btn);
    }
    (doc, ids)
}

#[test]
fn tab_moves_focus_to_focusable_node() {
    let (doc, btns) = focusable_doc(3);
    let mut rt = Rt::new(doc, (800.0, 600.0));

    assert_eq!(rt.focused(), None);

    let moved = rt.on_input(&InputEvent::KeyDown { key: "Tab".into() });
    assert!(moved, "Tab should return true when focusable nodes exist");
    assert_eq!(rt.focused(), Some(btns[0]), "first Tab focuses first node");

    rt.on_input(&InputEvent::KeyDown { key: "Tab".into() });
    assert_eq!(
        rt.focused(),
        Some(btns[1]),
        "second Tab focuses second node"
    );

    rt.on_input(&InputEvent::KeyDown { key: "Tab".into() });
    assert_eq!(rt.focused(), Some(btns[2]), "third Tab focuses third node");
}

#[test]
fn enter_activates_focused_node() {
    let (doc, btns) = focusable_doc(2);
    let mut rt = Rt::new(doc, (800.0, 600.0));

    let hit0 = Rc::new(RefCell::new(0i64));
    let hit1 = Rc::new(RefCell::new(0i64));
    {
        let h0 = hit0.clone();
        rt.register(
            "hit_0",
            Box::new(move |_s: &mut Store, _o: Origin| {
                *h0.borrow_mut() += 1;
            }),
        );
        let h1 = hit1.clone();
        rt.register(
            "hit_1",
            Box::new(move |_s: &mut Store, _o: Origin| {
                *h1.borrow_mut() += 1;
            }),
        );
    }

    rt.on_input(&InputEvent::KeyDown { key: "Tab".into() });
    assert_eq!(rt.focused(), Some(btns[0]));

    let activated = rt.on_input(&InputEvent::KeyDown {
        key: "Enter".into(),
    });
    assert!(activated, "Enter on a focused node should return true");
    assert_eq!(*hit0.borrow(), 1, "hit_0 handler should have fired once");
    assert_eq!(*hit1.borrow(), 0, "hit_1 should not have fired");
}

#[test]
fn navigate_pushes_and_back_pops() {
    let mut rt = counter_runtime();

    assert_eq!(rt.route(), None);
    assert!(rt.nav_stack().is_empty());

    assert!(rt.navigate("home", Origin::Human));
    assert_eq!(rt.route(), Some("home"));
    assert!(rt.navigate("details", Origin::Ai));
    assert_eq!(rt.route(), Some("details"));
    assert_eq!(rt.nav_stack(), &["home".to_string(), "details".to_string()]);

    assert_eq!(rt.store().get("route"), Some(Value::Text("details".into())));

    assert!(rt.back(Origin::Human));
    assert_eq!(rt.route(), Some("home"));
    assert_eq!(rt.store().get("route"), Some(Value::Text("home".into())));

    assert!(rt.back(Origin::Human));
    assert_eq!(rt.route(), None);
    assert!(!rt.back(Origin::Human), "nothing left to pop");

    let (human, ai) = rt.invoke_counts();
    assert!(human >= 1 && ai >= 1, "both origins recorded: {human} H, {ai} A");
}

#[test]
fn present_sets_bound_key_and_dismiss_clears_it() {
    const UI: &str = r#"
        Stack {
          Sheet { visible: $sheet; width: 100px; height: 100px; }
        }
    "#;
    let mut rt = Rt::from_uni(UI, (400.0, 400.0)).expect("ui parses");
    let root = rt.doc().root().unwrap();
    let sheet = rt.doc().get(root).unwrap().children[0];

    assert!(!rt.is_presented("sheet"));

    assert!(rt.present("sheet", Origin::Human));
    assert!(rt.is_presented("sheet"));
    assert_eq!(
        rt.doc().get(sheet).unwrap().props.get("visible"),
        Some(&Value::Bool(true)),
        "the bound key drove the prop true after a relayout"
    );

    assert!(rt.dismiss("sheet", Origin::Ai));
    assert!(!rt.is_presented("sheet"));
    assert_eq!(
        rt.doc().get(sheet).unwrap().props.get("visible"),
        Some(&Value::Bool(false)),
        "dismiss cleared the bound prop to false"
    );

    let (human, ai) = rt.invoke_counts();
    assert!(human >= 1 && ai >= 1, "present/dismiss audited: {human} H, {ai} A");
}

#[test]
fn focus_wraps_around() {
    let (doc, btns) = focusable_doc(3);
    let mut rt = Rt::new(doc, (800.0, 600.0));

    rt.move_focus(true);
    rt.move_focus(true);
    rt.move_focus(true);
    assert_eq!(rt.focused(), Some(btns[2]), "should be at last node");

    rt.move_focus(true);
    assert_eq!(
        rt.focused(),
        Some(btns[0]),
        "Tab past last should wrap to first"
    );

    rt.move_focus(false);
    assert_eq!(
        rt.focused(),
        Some(btns[2]),
        "backward from first should wrap to last"
    );
}

fn gesture_runtime() -> (Rt, NodeId, Rc<RefCell<Vec<String>>>) {
    let mut doc = Document::new();
    let node = doc.fresh_id();
    doc.apply_from(
        Origin::System,
        Mutation::CreateNode {
            id: node,
            kind: "Stack".into(),
        },
    )
    .unwrap();
    doc.apply_from(Origin::System, Mutation::SetRoot { id: node })
        .unwrap();
    doc.apply_from(
        Origin::System,
        Mutation::SetProp {
            id: node,
            key: "width".into(),
            value: Value::Px(p(400.0)),
        },
    )
    .unwrap();
    doc.apply_from(
        Origin::System,
        Mutation::SetProp {
            id: node,
            key: "height".into(),
            value: Value::Px(p(400.0)),
        },
    )
    .unwrap();
    let rt = Rt::new(doc, (400.0, 400.0));
    let hits = Rc::new(RefCell::new(Vec::<String>::new()));
    (rt, node, hits)
}

fn bind_gesture(
    rt: &mut Rt,
    node: NodeId,
    event: &str,
    log: Rc<RefCell<Vec<String>>>,
) {
    rt.rt
        .edit(
            Origin::System,
            Mutation::SetCallback {
                id: node,
                event: event.into(),
                action: Action {
                    name: event.into(),
                    args: vec![],
                },
            },
        )
        .unwrap();
    let ev = event.to_string();
    rt.register(
        event,
        Box::new(move |_store: &mut Store, _origin: Origin| {
            log.borrow_mut().push(ev.clone());
        }),
    );
}

#[test]
fn tap_gesture_single_fires_on_press_release() {
    let (mut rt, node, log) = gesture_runtime();
    bind_gesture(&mut rt, node, "tap", log.clone());
    rt.add_gesture(node, "tap", GestureKind::Tap { count: 1 });

    assert!(!rt.feed_gesture(&down(100.0, 100.0), Origin::Human));
    let fired = rt.feed_gesture(&up(102.0, 101.0), Origin::Human);
    assert!(fired, "release within slop recognizes the tap");
    assert_eq!(*log.borrow(), vec!["tap".to_string()]);
    let (human, ai) = rt.invoke_counts();
    assert_eq!((human, ai), (1, 0));
}

#[test]
fn tap_gesture_double_requires_two() {
    let (mut rt, node, log) = gesture_runtime();
    bind_gesture(&mut rt, node, "dbl", log.clone());
    rt.add_gesture(node, "dbl", GestureKind::Tap { count: 2 });

    rt.feed_gesture(&down(100.0, 100.0), Origin::Human);
    assert!(!rt.feed_gesture(&up(100.0, 100.0), Origin::Human));
    assert!(log.borrow().is_empty(), "one tap is not a double tap");

    rt.feed_gesture(&down(101.0, 101.0), Origin::Human);
    let fired = rt.feed_gesture(&up(101.0, 101.0), Origin::Human);
    assert!(fired, "second tap completes the double");
    assert_eq!(*log.borrow(), vec!["dbl".to_string()]);
}

#[test]
fn tap_gesture_cancelled_by_movement() {
    let (mut rt, node, log) = gesture_runtime();
    bind_gesture(&mut rt, node, "tap", log.clone());
    rt.add_gesture(node, "tap", GestureKind::Tap { count: 1 });

    rt.feed_gesture(&down(100.0, 100.0), Origin::Human);
    rt.feed_gesture(&moved(180.0, 100.0), Origin::Human); // far past slop
    let fired = rt.feed_gesture(&up(180.0, 100.0), Origin::Human);
    assert!(!fired);
    assert!(log.borrow().is_empty(), "moved-away press is not a tap");
}

#[test]
fn long_press_fires_after_min_duration() {
    let (mut rt, node, log) = gesture_runtime();
    bind_gesture(&mut rt, node, "long", log.clone());
    rt.add_gesture(node, "long", GestureKind::LongPress { min_duration: p(0.5) });

    rt.feed_gesture(&down(100.0, 100.0), Origin::Human);
    assert!(!rt.tick_gestures(0.2, Origin::Human));
    assert!(log.borrow().is_empty());
    let fired = rt.tick_gestures(0.4, Origin::Human);
    assert!(fired, "held past 0.5s recognizes the long-press");
    assert_eq!(*log.borrow(), vec!["long".to_string()]);
    assert!(!rt.tick_gestures(1.0, Origin::Human));
    assert_eq!(log.borrow().len(), 1);
}

#[test]
fn long_press_cancelled_by_early_release() {
    let (mut rt, node, log) = gesture_runtime();
    bind_gesture(&mut rt, node, "long", log.clone());
    rt.add_gesture(node, "long", GestureKind::LongPress { min_duration: p(0.5) });

    rt.feed_gesture(&down(100.0, 100.0), Origin::Human);
    rt.tick_gestures(0.2, Origin::Human);
    rt.feed_gesture(&up(100.0, 100.0), Origin::Human);
    assert!(!rt.tick_gestures(1.0, Origin::Human), "released early");
    assert!(log.borrow().is_empty());
}

#[test]
fn drag_gesture_changed_and_ended_with_translation() {
    let (mut rt, node, log) = gesture_runtime();
    bind_gesture(&mut rt, node, "drag_changed", log.clone());
    bind_gesture(&mut rt, node, "drag_ended", log.clone());
    let g = rt.add_gesture(node, "drag", GestureKind::Drag { min_distance: p(10.0) });

    rt.feed_gesture(&down(100.0, 100.0), Origin::Human);
    assert!(!rt.feed_gesture(&moved(103.0, 100.0), Origin::Human));
    assert!(log.borrow().is_empty());

    assert!(rt.feed_gesture(&moved(140.0, 130.0), Origin::Human));
    assert_eq!(rt.gesture(g).unwrap().translation(), (p(40.0), p(30.0)));
    assert!(rt.gesture(g).unwrap().is_active());

    assert!(rt.feed_gesture(&moved(150.0, 100.0), Origin::Human));
    assert_eq!(rt.gesture(g).unwrap().translation(), (p(50.0), p(0.0)));

    assert!(rt.feed_gesture(&up(150.0, 100.0), Origin::Human));
    assert!(!rt.gesture(g).unwrap().is_active());

    assert_eq!(
        *log.borrow(),
        vec![
            "drag_changed".to_string(),
            "drag_changed".to_string(),
            "drag_ended".to_string()
        ]
    );
}

#[test]
fn magnify_gesture_accumulates_scale_programmatically() {
    let (mut rt, node, log) = gesture_runtime();
    bind_gesture(&mut rt, node, "zoom_changed", log.clone());
    bind_gesture(&mut rt, node, "zoom_ended", log.clone());
    let g = rt.add_gesture(node, "zoom", GestureKind::Magnify);

    assert!(rt.pinch(0.5, Origin::Human)); // scale 1.5
    assert!((px(rt.gesture(g).unwrap().scale()) - 1.5).abs() < 1e-6);
    assert!(rt.pinch(0.2, Origin::Human)); // scale 1.5 * 1.2 = 1.8
    assert!((px(rt.gesture(g).unwrap().scale()) - 1.8).abs() < 1e-6);

    assert!(rt.end_continuous_gestures(Origin::Human));
    assert_eq!(
        *log.borrow(),
        vec![
            "zoom_changed".to_string(),
            "zoom_changed".to_string(),
            "zoom_ended".to_string()
        ]
    );
}

#[test]
fn rotation_gesture_accumulates_angle_programmatically() {
    let (mut rt, node, log) = gesture_runtime();
    bind_gesture(&mut rt, node, "spin_changed", log.clone());
    bind_gesture(&mut rt, node, "spin_ended", log.clone());
    let g = rt.add_gesture(node, "spin", GestureKind::Rotation);

    assert!(rt.rotate(0.5, Origin::Ai));
    assert!(rt.rotate(0.25, Origin::Ai));
    assert!((px(rt.gesture(g).unwrap().rotation()) - 0.75).abs() < 1e-6);
    assert!(rt.end_continuous_gestures(Origin::Ai));

    assert_eq!(
        *log.borrow(),
        vec![
            "spin_changed".to_string(),
            "spin_changed".to_string(),
            "spin_ended".to_string()
        ]
    );
    let (human, ai) = rt.invoke_counts();
    assert_eq!((human, ai), (0, 3));
}

#[test]
fn simultaneous_tap_and_magnify_coexist() {
    let (mut rt, node, log) = gesture_runtime();
    bind_gesture(&mut rt, node, "tap", log.clone());
    bind_gesture(&mut rt, node, "zoom_changed", log.clone());
    rt.add_gesture(node, "tap", GestureKind::Tap { count: 1 });
    rt.add_gesture(node, "zoom", GestureKind::Magnify);

    rt.pinch(0.3, Origin::Human);
    rt.feed_gesture(&down(100.0, 100.0), Origin::Human);
    rt.feed_gesture(&up(100.0, 100.0), Origin::Human);

    let fired = log.borrow().clone();
    assert!(fired.contains(&"zoom_changed".to_string()));
    assert!(fired.contains(&"tap".to_string()));
}

#[test]
fn drag_beyond_threshold_cancels_pending_tap() {
    let (mut rt, node, log) = gesture_runtime();
    bind_gesture(&mut rt, node, "tap", log.clone());
    bind_gesture(&mut rt, node, "drag_changed", log.clone());
    bind_gesture(&mut rt, node, "drag_ended", log.clone());
    rt.add_gesture(node, "tap", GestureKind::Tap { count: 1 });
    rt.add_gesture(node, "drag", GestureKind::Drag { min_distance: p(10.0) });

    rt.feed_gesture(&down(100.0, 100.0), Origin::Human);
    rt.feed_gesture(&moved(140.0, 100.0), Origin::Human);
    rt.feed_gesture(&up(140.0, 100.0), Origin::Human);

    let fired = log.borrow().clone();
    assert!(
        fired.contains(&"drag_changed".to_string()) && fired.contains(&"drag_ended".to_string()),
        "drag fired its events"
    );
    assert!(
        !fired.contains(&"tap".to_string()),
        "a winning drag cancels the pending tap"
    );
}

#[test]
fn tap_survives_when_drag_does_not_activate() {
    let (mut rt, node, log) = gesture_runtime();
    bind_gesture(&mut rt, node, "tap", log.clone());
    bind_gesture(&mut rt, node, "drag_changed", log.clone());
    rt.add_gesture(node, "tap", GestureKind::Tap { count: 1 });
    rt.add_gesture(node, "drag", GestureKind::Drag { min_distance: p(20.0) });

    rt.feed_gesture(&down(100.0, 100.0), Origin::Human);
    rt.feed_gesture(&moved(105.0, 100.0), Origin::Human); // within both slops
    rt.feed_gesture(&up(105.0, 100.0), Origin::Human);

    assert_eq!(*log.borrow(), vec!["tap".to_string()]);
}

#[test]
fn gesture_only_arms_on_a_hit() {
    let (doc, btns) = focusable_doc(1);
    let target = btns[0];
    let mut rt = Rt::new(doc, (800.0, 600.0));
    let log = Rc::new(RefCell::new(Vec::<String>::new()));
    bind_gesture(&mut rt, target, "tap", log.clone());
    rt.add_gesture(target, "tap", GestureKind::Tap { count: 1 });

    rt.feed_gesture(&down(790.0, 590.0), Origin::Human);
    let fired = rt.feed_gesture(&up(790.0, 590.0), Origin::Human);
    assert!(!fired);
    assert!(log.borrow().is_empty(), "a miss does not arm the tap");
}

const HOST_UI: &str = r#"
    Stack { padding: 12px; background: #101010;
      Button { width: 120px; height: 40px; color: #7d39eb; corner_radius: 8px;
               on click: noop(); }
    }
"#;

#[test]
fn canvas_host_renders_nonempty_pixels() {
    let host = host(HOST_UI, 320, 200);
    let px = host.pixels();
    assert_eq!(px.len(), 320 * 200 * 4);
    assert!(px.iter().any(|&b| b != 0), "expected painted pixels");
}

#[test]
fn canvas_host_resize_changes_buffer_len() {
    let mut host = host(HOST_UI, 100, 100);
    assert_eq!(host.pixels().len(), 100 * 100 * 4);
    host.resize(200, 150, &fl, &engine, &light);
    assert_eq!(host.pixels().len(), 200 * 150 * 4);
}

#[test]
fn canvas_host_tick_settles() {
    let mut host = host(HOST_UI, 64, 64);
    assert!(!host.tick(p(1.0 / 60.0), &fl, &engine, &step, &light));
}
