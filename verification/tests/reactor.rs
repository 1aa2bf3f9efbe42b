use taffy::prelude::{
    length, AlignItems, AvailableSpace, FlexDirection, FlexWrap, JustifyContent, Position, Rect, Size, Style,
    TaffyTree,
};
use taffy::compute_leaf_layout;

use uni::expr::{eval_binding, Evaluated, Expr};
use uni::float::FloatOp;
use uni::ir::{Document, Mutation, Origin};
use uni::layout::{layout, Align, BoxStyle, Flow, Frame, Justify, Plan};
use uni::node::NodeId;
use uni::resolve::{resolve, Reactor};
use uni::store::{FloatText, Store};
use uni::value::{Binding, Value};

fn px(b: u32) -> f32 {
    f32::from_bits(b)
}

fn taffy_style(s: &BoxStyle) -> Style {
    let side = |x: Option<u32>| match x {
        Some(b) => length(px(b)),
        None => taffy::style_helpers::auto(),
    };
    let mut style = Style { size: Size { width: side(s.width), height: side(s.height) }, ..Style::default() };
    style.flex_grow = px(s.grow);
    if let Some(inset) = s.inset {
        let edge = |x: Option<u32>| match x {
            Some(b) => length(px(b)),
            None => taffy::style_helpers::auto(),
        };
        style.position = Position::Absolute;
        style.inset = Rect {
            left: edge(inset.left),
            right: edge(inset.right),
            top: edge(inset.top),
            bottom: edge(inset.bottom),
        };
    }
    match s.flow {
        Flow::Leaf => {}
        Flow::Column => style.flex_direction = FlexDirection::Column,
        Flow::Row => style.flex_direction = FlexDirection::Row,
        Flow::Wrap => {
            style.flex_direction = FlexDirection::Row;
            style.flex_wrap = FlexWrap::Wrap;
        }
    }
    if let Some(p) = s.padding {
        style.padding = Rect { left: length(px(p)), right: length(px(p)), top: length(px(p)), bottom: length(px(p)) };
    }
    if let Some(g) = s.gap {
        style.gap = Size { width: length(px(g)), height: length(px(g)) };
    }
    if let Some(a) = s.align {
        style.align_items = match a {
            Align::Start => AlignItems::START,
            Align::Center => AlignItems::CENTER,
            Align::End => AlignItems::END,
            Align::Stretch => AlignItems::STRETCH,
        };
    }
    if let Some(j) = s.justify {
        style.justify_content = match j {
            Justify::Start => JustifyContent::START,
            Justify::Center => JustifyContent::CENTER,
            Justify::End => JustifyContent::END,
            Justify::Stretch => JustifyContent::STRETCH,
            Justify::SpaceBetween => JustifyContent::SPACE_BETWEEN,
            Justify::SpaceAround => JustifyContent::SPACE_AROUND,
            Justify::SpaceEvenly => JustifyContent::SPACE_EVENLY,
        };
    }
    style
}

fn taffy_build(p: &Plan, tree: &mut TaffyTree<Option<(u32, u32)>>) -> Option<taffy::NodeId> {
    let style = taffy_style(&p.style);
    if p.style.flow == Flow::Leaf {
        tree.new_leaf_with_context(style, p.text).ok()
    } else {
        let children: Vec<taffy::NodeId> = p.children.iter().filter_map(|c| taffy_build(c, tree)).collect();
        tree.new_with_children(style, &children).ok()
    }
}

fn taffy_collect(tree: &TaffyTree<Option<(u32, u32)>>, id: taffy::NodeId, out: &mut Vec<Frame>) {
    let l = tree.layout(id).unwrap();
    out.push(Frame {
        x: l.location.x.to_bits(),
        y: l.location.y.to_bits(),
        w: l.size.width.to_bits(),
        h: l.size.height.to_bits(),
    });
    for child in tree.children(id).unwrap() {
        taffy_collect(tree, child, out);
    }
}

fn engine(plan: &Plan) -> Option<Vec<Frame>> {
    let mut tree: TaffyTree<Option<(u32, u32)>> = TaffyTree::new();
    let root = taffy_build(plan, &mut tree)?;
    let side = |x: Option<u32>| match x {
        Some(b) => AvailableSpace::Definite(px(b)),
        None => AvailableSpace::MaxContent,
    };
    let available = Size { width: side(plan.style.width), height: side(plan.style.height) };
    tree.compute_layout_with_measure(root, available, |inputs, _node, context, style| {
        let text = context.and_then(|c| *c).map(|(w, h)| (px(w), px(h))).unwrap_or((0.0, 0.0));
        compute_leaf_layout(
            inputs,
            style,
            |_, _| 0.0,
            |known, _space| Size { width: known.width.unwrap_or(text.0), height: known.height.unwrap_or(text.1) },
        )
    })
    .ok()?;
    let mut out = Vec::new();
    taffy_collect(&tree, root, &mut out);
    Some(out)
}

fn print(x: FloatText) -> String {
    match x {
        FloatText::Double(b) => f64::from_bits(b).to_string(),
        FloatText::Single(b) => f32::from_bits(b).to_string(),
    }
}

fn eval(b: &Binding, store: &Store) -> Option<Value> {
    match eval_binding(&b.expr, store, &fl) {
        Evaluated::Is(v) => Some(v),
        Evaluated::Nothing => None,
        Evaluated::Overflow => panic!("overflow"),
    }
}

fn fl(op: &FloatOp) -> Option<u64> {
    let d = |x: f64| Some(x.to_bits());
    let s = |x: f32| Some(x.to_bits() as u64);
    let f = f32::from_bits;
    let g = f64::from_bits;
    match op {
        FloatOp::Read { text } => text.parse::<f64>().ok().map(f64::to_bits),
        FloatOp::ReadSingle { text } => text.parse::<f32>().ok().map(|x| x.to_bits() as u64),
        FloatOp::Narrow { double } => s(g(*double) as f32),
        FloatOp::Widen { single } => d(f(*single) as f64),
        FloatOp::FromInt { value } => d(*value as f64),
        FloatOp::Add { a, b } => d(g(*a) + g(*b)),
        FloatOp::Sub { a, b } => d(g(*a) - g(*b)),
        FloatOp::Mul { a, b } => d(g(*a) * g(*b)),
        FloatOp::Div { a, b } => d(g(*a) / g(*b)),
        FloatOp::AddSingle { x, y } => s(f(*x) + f(*y)),
        FloatOp::SubSingle { x, y } => s(f(*x) - f(*y)),
        FloatOp::MulSingle { x, y } => s(f(*x) * f(*y)),
        FloatOp::DivSingle { x, y } => s(f(*x) / f(*y)),
        FloatOp::SqrtSingle { x } => s(f(*x).sqrt()),
        FloatOp::FromIntSingle { value } => s(*value as f32),
        FloatOp::CeilSingle { x } => s(f(*x).ceil()),
        FloatOp::RoundSingle { x } => s(f(*x).round()),
        FloatOp::ExpSingle { x } => s(f(*x).exp()),
        FloatOp::PowSingle { x, y } => s(f(*x).powf(f(*y))),
        FloatOp::AngleSingle { y, x } => s(f(*y).atan2(f(*x))),
    }
}

fn count_text(doc: &Document, id: NodeId, n: &mut usize) {
    if let Some(node) = doc.get(id) {
        if node.kind == "Text" {
            *n += 1;
        }
        for &c in &node.children {
            count_text(doc, c, n);
        }
    }
}

fn node(doc: &mut Document, kind: &str) -> NodeId {
    let id = doc.fresh_id();
    doc.apply_from(
        Origin::System,
        Mutation::CreateNode {
            id,
            kind: kind.into(),
        },
    )
    .unwrap();
    id
}

fn set_root(doc: &mut Document, id: NodeId) {
    doc.apply_from(Origin::System, Mutation::SetRoot { id })
        .unwrap();
}

fn child(doc: &mut Document, parent: NodeId, c: NodeId) {
    doc.apply_from(Origin::System, Mutation::AppendChild { parent, child: c })
        .unwrap();
}

fn bind(doc: &mut Document, id: NodeId, key: &str, expr: &str) {
    doc.apply_from(
        Origin::System,
        Mutation::SetBinding {
            id,
            key: key.into(),
            binding: Binding { expr: expr.into() },
        },
    )
    .unwrap();
}

fn find_kind(doc: &Document, kind: &str) -> Vec<NodeId> {
    let mut found = Vec::new();
    if let Some(root) = doc.root() {
        collect(doc, root, kind, &mut found);
    }
    found
}

fn collect(doc: &Document, id: NodeId, kind: &str, out: &mut Vec<NodeId>) {
    if let Some(n) = doc.get(id) {
        if n.kind == kind {
            out.push(id);
        }
        for &c in &n.children {
            collect(doc, c, kind, out);
        }
    }
}

#[test]
fn binding_resolves_to_literal_prop() {
    let mut src = Document::new();
    let root = node(&mut src, "Stack");
    set_root(&mut src, root);
    let label = node(&mut src, "Text");
    bind(&mut src, label, "content", "title");
    child(&mut src, root, label);

    let mut store = Store::new();
    store.set("title", Value::Text("Hi".into()));

    let resolved = resolve(&src, &store, &fl);
    let texts = find_kind(&resolved, "Text");
    assert_eq!(texts.len(), 1);
    assert_eq!(
        resolved.get(texts[0]).unwrap().props.get("content"),
        Some(&Value::Text("Hi".into()))
    );
}

#[test]
fn literal_props_pass_through_and_binding_overrides() {
    let mut src = Document::new();
    let root = node(&mut src, "Stack");
    set_root(&mut src, root);
    let label = node(&mut src, "Text");
    src.apply_from(
        Origin::System,
        Mutation::SetProp {
            id: label,
            key: "content".into(),
            value: Value::Text("default".into()),
        },
    )
    .unwrap();
    src.apply_from(
        Origin::System,
        Mutation::SetProp {
            id: label,
            key: "size".into(),
            value: Value::Px(20.0f32.to_bits()),
        },
    )
    .unwrap();
    bind(&mut src, label, "content", "title");
    child(&mut src, root, label);

    let mut store = Store::new();
    store.set("title", Value::Text("Bound".into()));

    let resolved = resolve(&src, &store, &fl);
    let t = find_kind(&resolved, "Text")[0];
    let props = &resolved.get(t).unwrap().props;
    assert_eq!(props.get("content"), Some(&Value::Text("Bound".into())));
    assert_eq!(props.get("size"), Some(&Value::Px(20.0f32.to_bits())));
}

#[test]
fn if_false_omits_children_true_keeps_them() {
    let build = |cond: bool| {
        let mut src = Document::new();
        let root = node(&mut src, "Stack");
        set_root(&mut src, root);
        let iff = node(&mut src, "If");
        bind(&mut src, iff, "cond", "show");
        child(&mut src, root, iff);
        let inner = node(&mut src, "Rect");
        child(&mut src, iff, inner);

        let mut store = Store::new();
        store.set("show", Value::Bool(cond));
        resolve(&src, &store, &fl)
    };

    let r_false = build(false);
    assert!(find_kind(&r_false, "Rect").is_empty());
    assert!(find_kind(&r_false, "If").is_empty());

    let r_true = build(true);
    assert_eq!(find_kind(&r_true, "Rect").len(), 1);
    assert!(find_kind(&r_true, "If").is_empty());
}

#[test]
fn for_with_int_repeats_template() {
    let mut src = Document::new();
    let root = node(&mut src, "Stack");
    set_root(&mut src, root);
    let forn = node(&mut src, "For");
    bind(&mut src, forn, "items", "count");
    child(&mut src, root, forn);
    let tmpl = node(&mut src, "Rect");
    child(&mut src, forn, tmpl);

    let mut store = Store::new();
    store.set("count", Value::Int(3));

    let resolved = resolve(&src, &store, &fl);
    assert_eq!(find_kind(&resolved, "Rect").len(), 3);
    assert!(find_kind(&resolved, "For").is_empty());
    let rects = find_kind(&resolved, "Rect");
    assert_ne!(rects[0], rects[1]);
    assert_ne!(rects[1], rects[2]);
}

#[test]
fn reactor_re_resolves_after_store_change() {
    let mut src = Document::new();
    let root = node(&mut src, "Stack");
    set_root(&mut src, root);
    let label = node(&mut src, "Text");
    bind(&mut src, label, "content", "title");
    child(&mut src, root, label);

    let mut store = Store::new();
    store.set("title", Value::Text("first".into()));

    let mut reactor = Reactor::new(src, store);
    assert!(reactor.is_dirty());

    let r1 = reactor.resolved(&fl);
    let t1 = find_kind(&r1, "Text")[0];
    assert_eq!(
        r1.get(t1).unwrap().props.get("content"),
        Some(&Value::Text("first".into()))
    );
    assert!(!reactor.is_dirty());

    reactor
        .store_mut()
        .set("title", Value::Text("second".into()));
    assert!(reactor.is_dirty());

    let r2 = reactor.resolved(&fl);
    let t2 = find_kind(&r2, "Text")[0];
    assert_eq!(
        r2.get(t2).unwrap().props.get("content"),
        Some(&Value::Text("second".into()))
    );
}

#[test]
fn for_expands_by_list_count() {

    let mut doc = Document::new();
    let root = doc.fresh_id();
    doc.apply_from(
        Origin::System,
        Mutation::CreateNode {
            id: root,
            kind: "Stack".into(),
        },
    )
    .unwrap();
    doc.apply_from(Origin::System, Mutation::SetRoot { id: root })
        .unwrap();
    let for_node = doc.fresh_id();
    doc.apply_from(
        Origin::System,
        Mutation::CreateNode {
            id: for_node,
            kind: "For".into(),
        },
    )
    .unwrap();
    doc.apply_from(
        Origin::System,
        Mutation::SetBinding {
            id: for_node,
            key: "items".into(),
            binding: Binding {
                expr: "items".into(),
            },
        },
    )
    .unwrap();
    doc.apply_from(
        Origin::System,
        Mutation::AppendChild {
            parent: root,
            child: for_node,
        },
    )
    .unwrap();
    let template = doc.fresh_id();
    doc.apply_from(
        Origin::System,
        Mutation::CreateNode {
            id: template,
            kind: "Text".into(),
        },
    )
    .unwrap();
    doc.apply_from(
        Origin::System,
        Mutation::AppendChild {
            parent: for_node,
            child: template,
        },
    )
    .unwrap();

    let mut store = Store::new();
    store.set(
        "items",
        Value::List(vec![
            Value::Text("apple".into()),
            Value::Text("banana".into()),
            Value::Text("cherry".into()),
        ]),
    );

    let resolved = resolve(&doc, &store, &fl);

    let _root_node = resolved.get(resolved.root().unwrap()).unwrap();
    let mut text_count = 0;
    count_text(&resolved, resolved.root().unwrap(), &mut text_count);
    assert_eq!(text_count, 3, "expected 3 Text nodes from list expansion");

    let texts = find_kind(&resolved, "Text");
    let expected_items = ["apple", "banana", "cherry"];
    for (i, &tid) in texts.iter().enumerate() {
        let node = resolved.get(tid).unwrap();
        assert_eq!(
            node.props.get("item"),
            Some(&Value::Text(expected_items[i].into())),
            "Text[{i}] should have item prop"
        );
        assert_eq!(
            node.props.get("index"),
            Some(&Value::Int(i as i64)),
            "Text[{i}] should have index prop"
        );
    }
}

#[test]
fn bare_key_is_a_trivial_key_expr() {
    assert_eq!(Expr::parse("title", &fl), Expr::Key("title".into()));
    assert_eq!(Expr::parse("user.name", &fl), Expr::Key("user.name".into()));
}

#[test]
fn arithmetic_binding_evaluates_against_store() {
    let mut store = Store::new();
    store.set("price", Value::Int(7));
    store.set("qty", Value::Int(3));
    store.set("count", Value::Int(41));

    let total = Binding {
        expr: "price * qty".into(),
    };
    assert_eq!(eval(&total, &store), Some(Value::Int(21)));

    let next = Binding {
        expr: "count + 1".into(),
    };
    assert_eq!(eval(&next, &store), Some(Value::Int(42)));

    let mixed = Binding {
        expr: "count + price * qty".into(),
    };
    assert_eq!(eval(&mixed, &store), Some(Value::Int(41 + 21)));
}

#[test]
fn comparison_binding_yields_bool() {
    let mut store = Store::new();
    store.set("count", Value::Int(3));

    let gt = Binding {
        expr: "count > 0".into(),
    };
    assert_eq!(eval(&gt, &store), Some(Value::Bool(true)));

    let lt = Binding {
        expr: "count < 0".into(),
    };
    assert_eq!(eval(&lt, &store), Some(Value::Bool(false)));

    let eq = Binding {
        expr: "count == 3".into(),
    };
    assert_eq!(eval(&eq, &store), Some(Value::Bool(true)));
}

#[test]
fn unary_ops_evaluate() {
    let mut store = Store::new();
    store.set("open", Value::Bool(false));
    store.set("n", Value::Int(5));

    let not_open = Binding {
        expr: "!open".into(),
    };
    assert_eq!(eval(&not_open, &store), Some(Value::Bool(true)));

    let neg = Binding { expr: "-n".into() };
    assert_eq!(eval(&neg, &store), Some(Value::Int(-5)));
}

#[test]
fn comparison_binding_gates_an_if_node() {
    let build = |count: i64| {
        let mut src = Document::new();
        let root = node(&mut src, "Stack");
        set_root(&mut src, root);
        let iff = node(&mut src, "If");
        bind(&mut src, iff, "cond", "count > 0");
        child(&mut src, root, iff);
        let inner = node(&mut src, "Rect");
        child(&mut src, iff, inner);

        let mut store = Store::new();
        store.set("count", Value::Int(count));
        resolve(&src, &store, &fl)
    };

    assert!(find_kind(&build(0), "Rect").is_empty());
    assert_eq!(find_kind(&build(2), "Rect").len(), 1);
}

#[test]
fn parentheses_group_subexpressions() {
    let mut store = Store::new();
    store.set("a", Value::Int(2));
    store.set("b", Value::Int(3));
    store.set("c", Value::Int(4));

    let grouped = Binding {
        expr: "(a + b) * c".into(),
    };
    assert_eq!(eval(&grouped, &store), Some(Value::Int(20)));
    let ungrouped = Binding {
        expr: "a + b * c".into(),
    };
    assert_eq!(eval(&ungrouped, &store), Some(Value::Int(14)));
}

#[test]
fn snapshot_and_restore_roundtrip() {
    let mut store = Store::new();
    store.set("flag", Value::Bool(true));
    store.set("count", Value::Int(42));
    store.set("ratio", Value::Float(3.25f64.to_bits()));
    store.set("label", Value::Text("hello\nworld".into()));
    store.set("accent", Value::Color(0x7D39_EBFF));
    store.set("size", Value::Px(16.5f32.to_bits()));

    let snap = store.snapshot(&print);

    let mut store2 = Store::new();
    let restored = store2.restore(&snap, &fl);

    assert_eq!(restored, 6, "all 6 keys should restore");
    assert_eq!(store2.get("flag"), Some(Value::Bool(true)));
    assert_eq!(store2.get("count"), Some(Value::Int(42)));
    assert_eq!(
        store2.get("label"),
        Some(Value::Text("hello\nworld".into()))
    );
    assert_eq!(store2.get("accent"), Some(Value::Color(0x7D39_EBFF)));
    assert_eq!(store2.get("size"), Some(Value::Px(16.5f32.to_bits())));
    if let Some(Value::Float(f)) = store2.get("ratio") {
        assert!((f64::from_bits(f) - 3.25).abs() < 1e-9);
    } else {
        panic!("ratio should be a Float");
    }
}

#[test]
fn restore_partial_snapshot() {
    let mut store = Store::new();
    store.set("existing", Value::Int(99));

    let partial = "newkey\tint\t7\n";
    let restored = store.restore(partial, &fl);

    assert_eq!(restored, 1);
    assert_eq!(store.get("newkey"), Some(Value::Int(7)));
    assert_eq!(store.get("existing"), Some(Value::Int(99)));
}

#[test]
fn snapshot_empty_store_is_empty_string() {
    let store = Store::new();
    let snap = store.snapshot(&print);
    assert!(snap.is_empty(), "empty store snapshots to empty string");
}

#[test]
fn resolved_doc_is_layout_ready() {
    let mut src = Document::new();
    let root = node(&mut src, "Column");
    set_root(&mut src, root);
    let forn = node(&mut src, "For");
    bind(&mut src, forn, "items", "n");
    child(&mut src, root, forn);
    let tmpl = node(&mut src, "Rect");
    src.apply_from(
        Origin::System,
        Mutation::SetProp {
            id: tmpl,
            key: "width".into(),
            value: Value::Px(50.0f32.to_bits()),
        },
    )
    .unwrap();
    src.apply_from(
        Origin::System,
        Mutation::SetProp {
            id: tmpl,
            key: "height".into(),
            value: Value::Px(30.0f32.to_bits()),
        },
    )
    .unwrap();
    child(&mut src, forn, tmpl);

    let mut store = Store::new();
    store.set("n", Value::Int(2));

    let resolved = resolve(&src, &store, &fl);
    let l = layout(&resolved, (400.0f32.to_bits(), 400.0f32.to_bits()), &fl, &engine);
    assert_eq!(l.len(), 3);
}
