use uni::dsl::{parse, ParseError};
use uni::float::FloatOp;
use uni::value::{Action, Binding, Value};

fn fl(op: &FloatOp) -> Option<u64> {
    let d = |x: f64| Some(x.to_bits());
    let s = |x: f32| Some(x.to_bits() as u64);
    let f = f32::from_bits;
    let g = f64::from_bits;
    match op {
        FloatOp::Read { text } => text.parse::<f64>().ok().map(f64::to_bits),
        FloatOp::ReadSingle { text } => text.parse::<f32>().ok().map(|x| x.to_bits() as u64),
        FloatOp::Narrow { double } => s(g(*double) as f32),
        FloatOp::Widen { single } => d(f(*single) as f64),
        FloatOp::FromInt { value } => d(*value as f64),
        FloatOp::Add { a, b } => d(g(*a) + g(*b)),
        FloatOp::Sub { a, b } => d(g(*a) - g(*b)),
        FloatOp::Mul { a, b } => d(g(*a) * g(*b)),
        FloatOp::Div { a, b } => d(g(*a) / g(*b)),
        FloatOp::AddSingle { x, y } => s(f(*x) + f(*y)),
        FloatOp::SubSingle { x, y } => s(f(*x) - f(*y)),
        FloatOp::MulSingle { x, y } => s(f(*x) * f(*y)),
        FloatOp::DivSingle { x, y } => s(f(*x) / f(*y)),
        FloatOp::SqrtSingle { x } => s(f(*x).sqrt()),
        FloatOp::FromIntSingle { value } => s(*value as f32),
        FloatOp::CeilSingle { x } => s(f(*x).ceil()),
        FloatOp::RoundSingle { x } => s(f(*x).round()),
        FloatOp::ExpSingle { x } => s(f(*x).exp()),
        FloatOp::PowSingle { x, y } => s(f(*x).powf(f(*y))),
        FloatOp::AngleSingle { y, x } => s(f(*y).atan2(f(*x))),
    }
}

const SAMPLE: &str = r#"
    Stack {
        padding: 16px;
        background: #0a0a0a;
        Text { content: "Uni-UI"; size: 28px; color: #ffffff; }
        Rect { width: 200px; height: 80px; color: #7d39eb; }
    }
"#;

#[test]
fn parses_the_sample_document() {
    let doc = parse(SAMPLE, &fl).expect("sample should parse");

    let root_id = doc.root().expect("a root must be set");
    let root = doc.get(root_id).unwrap();
    assert_eq!(root.kind, "Stack");

    assert_eq!(root.props.get("padding"), Some(&Value::Px(16.0f32.to_bits())));
    assert_eq!(
        root.props.get("background"),
        Some(&Value::Color(0x0a0a0aff))
    );

    assert_eq!(root.children.len(), 2);
    let text = doc.get(root.children[0]).unwrap();
    let rect = doc.get(root.children[1]).unwrap();
    assert_eq!(text.kind, "Text");
    assert_eq!(rect.kind, "Rect");

    assert_eq!(
        text.props.get("content"),
        Some(&Value::Text("Uni-UI".to_string()))
    );
    assert_eq!(text.props.get("size"), Some(&Value::Px(28.0f32.to_bits())));
    assert_eq!(text.props.get("color"), Some(&Value::Color(0xffffffff)));

    assert_eq!(rect.props.get("width"), Some(&Value::Px(200.0f32.to_bits())));
    assert_eq!(rect.props.get("height"), Some(&Value::Px(80.0f32.to_bits())));
    assert_eq!(rect.props.get("color"), Some(&Value::Color(0x7d39ebff)));
}

#[test]
fn parented_children_carry_back_pointers() {
    let doc = parse(SAMPLE, &fl).unwrap();
    let root_id = doc.root().unwrap();
    for child_id in &doc.get(root_id).unwrap().children {
        assert_eq!(doc.get(*child_id).unwrap().parent, Some(root_id));
    }
}

#[test]
fn int_float_and_bool_values_lower_distinctly() {
    let doc = parse(r#"Box { flex: 2; ratio: 1.5; visible: true; }"#, &fl).unwrap();
    let root = doc.get(doc.root().unwrap()).unwrap();
    assert_eq!(root.props.get("flex"), Some(&Value::Int(2)));
    assert_eq!(root.props.get("ratio"), Some(&Value::Float(1.5f64.to_bits())));
    assert_eq!(root.props.get("visible"), Some(&Value::Bool(true)));
}

#[test]
fn malformed_input_is_a_parse_error() {
    let err = parse(r#"Stack { padding: 16px "#, &fl).unwrap_err();
    assert!(
        matches!(err, ParseError::Parse { .. }),
        "expected a Parse error, got {err:?}"
    );
}

#[test]
fn garbage_bytes_are_a_lex_error() {
    let err = parse(r#"Stack { @ }"#, &fl).unwrap_err();
    assert!(
        matches!(err, ParseError::Lex { .. }),
        "expected a Lex error, got {err:?}"
    );
}

#[test]
fn bound_props_lower_to_bindings_alongside_literals() {
    let doc = parse(r#"Rect { width: $w; color: $theme.accent; height: 80px; }"#, &fl)
        .expect("bindings should parse");
    let root = doc.get(doc.root().unwrap()).unwrap();

    assert_eq!(
        root.bindings.get("width"),
        Some(&Binding { expr: "w".into() })
    );
    assert_eq!(
        root.bindings.get("color"),
        Some(&Binding {
            expr: "theme.accent".into()
        })
    );
    assert_eq!(root.props.get("height"), Some(&Value::Px(80.0f32.to_bits())));
    assert_eq!(root.props.get("width"), None);
}

#[test]
fn callbacks_lower_to_actions() {
    let doc = parse(r#"Button { on click: submit("form"); on hover: toggle(); }"#, &fl)
        .expect("callbacks should parse");
    let root = doc.get(doc.root().unwrap()).unwrap();

    assert_eq!(
        root.callbacks.get("click"),
        Some(&Action {
            name: "submit".into(),
            args: vec![Value::Text("form".into())],
        })
    );
    assert_eq!(
        root.callbacks.get("hover"),
        Some(&Action {
            name: "toggle".into(),
            args: vec![],
        })
    );
}

#[test]
fn callback_args_preserve_literal_kinds() {
    let doc = parse(r#"Box { on tap: act("s", 3, 1.5, true, #ff0000, 8px); }"#, &fl).unwrap();
    let root = doc.get(doc.root().unwrap()).unwrap();
    assert_eq!(
        root.callbacks.get("tap").unwrap().args,
        vec![
            Value::Text("s".into()),
            Value::Int(3),
            Value::Float(1.5f64.to_bits()),
            Value::Bool(true),
            Value::Color(0xff0000ff),
            Value::Px(8.0f32.to_bits()),
        ]
    );
}

#[test]
fn if_and_for_lower_to_structural_nodes() {
    let src = r#"
        Stack {
            if ($visible) {
                Text { content: "shown"; }
            }
            for ($items) {
                Rect { width: 10px; }
            }
        }
    "#;
    let doc = parse(src, &fl).expect("if/for should parse");
    let root = doc.get(doc.root().unwrap()).unwrap();
    assert_eq!(root.children.len(), 2);

    let if_node = doc.get(root.children[0]).unwrap();
    assert_eq!(if_node.kind, "If");
    assert_eq!(
        if_node.bindings.get("cond"),
        Some(&Binding {
            expr: "visible".into()
        })
    );
    assert_eq!(if_node.children.len(), 1);
    assert_eq!(doc.get(if_node.children[0]).unwrap().kind, "Text");

    let for_node = doc.get(root.children[1]).unwrap();
    assert_eq!(for_node.kind, "For");
    assert_eq!(
        for_node.bindings.get("items"),
        Some(&Binding {
            expr: "items".into()
        })
    );
    assert_eq!(for_node.children.len(), 1);
    assert_eq!(doc.get(for_node.children[0]).unwrap().kind, "Rect");
}

#[test]
fn malformed_callback_is_a_parse_error() {
    let err = parse(r#"Button { on click; }"#, &fl).unwrap_err();
    assert!(
        matches!(err, ParseError::Parse { .. }),
        "expected a Parse error, got {err:?}"
    );
}
