use uni::float::FloatOp;
use uni::slint_import::{parse, parse_with_report};
use uni::value::Value;

fn fl(op: &FloatOp) -> Option<u64> {
    let d = |x: f64| Some(x.to_bits());
    let s = |x: f32| Some(x.to_bits() as u64);
    let f = f32::from_bits;
    let g = f64::from_bits;
    match op {
        FloatOp::Read { text } => text.parse::<f64>().ok().map(f64::to_bits),
        FloatOp::ReadSingle { text } => text.parse::<f32>().ok().map(|x| x.to_bits() as u64),
        FloatOp::Narrow { double } => s(g(*double) as f32),
        FloatOp::Widen { single } => d(f(*single) as f64),
        FloatOp::FromInt { value } => d(*value as f64),
        FloatOp::Add { a, b } => d(g(*a) + g(*b)),
        FloatOp::Sub { a, b } => d(g(*a) - g(*b)),
        FloatOp::Mul { a, b } => d(g(*a) * g(*b)),
        FloatOp::Div { a, b } => d(g(*a) / g(*b)),
        FloatOp::AddSingle { x, y } => s(f(*x) + f(*y)),
        FloatOp::SubSingle { x, y } => s(f(*x) - f(*y)),
        FloatOp::MulSingle { x, y } => s(f(*x) * f(*y)),
        FloatOp::DivSingle { x, y } => s(f(*x) / f(*y)),
        FloatOp::SqrtSingle { x } => s(f(*x).sqrt()),
        FloatOp::FromIntSingle { value } => s(*value as f32),
        FloatOp::CeilSingle { x } => s(f(*x).ceil()),
        FloatOp::RoundSingle { x } => s(f(*x).round()),
        FloatOp::ExpSingle { x } => s(f(*x).exp()),
        FloatOp::PowSingle { x, y } => s(f(*x).powf(f(*y))),
        FloatOp::AngleSingle { y, x } => s(f(*y).atan2(f(*x))),
    }
}

fn root_prop(src: &str, key: &str) -> Option<Value> {
    let doc = parse(src, &fl).expect("parse ok");
    let root = doc.root()?;
    doc.get(root)?.props.get(key).cloned()
}

#[test]
fn parse_empty_string_returns_empty_doc() {
    let doc = parse("", &fl).unwrap();
    assert!(doc.root().is_none());
}

#[test]
fn parse_single_element_becomes_root() {
    let doc = parse("Rectangle {}", &fl).unwrap();
    let root = doc.root().expect("root set");
    assert_eq!(doc.get(root).unwrap().kind, "Rectangle");
}

#[test]
fn prop_text_maps_to_content() {
    let v = root_prop(r#"Text { text: "Hello"; }"#, "content");
    assert_eq!(v, Some(Value::Text("Hello".into())));
}

#[test]
fn prop_font_size_maps_to_size() {
    let v = root_prop("Text { font-size: 18px; }", "size");
    assert_eq!(v, Some(Value::Px(18.0f32.to_bits())));
}

#[test]
fn prop_border_radius_maps_to_corner_radius() {
    let v = root_prop("Rectangle { border-radius: 8px; }", "corner_radius");
    assert_eq!(v, Some(Value::Px(8.0f32.to_bits())));
}

#[test]
fn color_hex_6_digit_gets_ff_alpha() {
    let v = root_prop("Rectangle { background: #7D39EB; }", "background");
    assert_eq!(v, Some(Value::Color(0x7D39_EBFF)));
}

#[test]
fn color_hex_8_digit_kept_as_is() {
    let v = root_prop("Rectangle { background: #7D39EBCC; }", "background");
    assert_eq!(v, Some(Value::Color(0x7D39_EBCC)));
}

#[test]
fn color_name_white_is_0xffffffff() {
    let v = root_prop("Rectangle { background: white; }", "background");
    assert_eq!(v, Some(Value::Color(0xFFFF_FFFF)));
}

#[test]
fn nested_element_becomes_child() {
    let doc = parse(r#"Stack { Text { text: "Hi"; } }"#, &fl).unwrap();
    let root = doc.root().unwrap();
    let children = &doc.get(root).unwrap().children;
    assert_eq!(children.len(), 1);
    let child = doc.get(children[0]).unwrap();
    assert_eq!(child.kind, "Text");
    assert_eq!(child.props.get("content"), Some(&Value::Text("Hi".into())));
}

#[test]
fn component_decl_is_inlined_on_use() {
    let src = r#"
        component MyBox {
            border-radius: 12px;
            Text { text: "inside"; }
        }
        MyBox {}
    "#;
    let doc = parse(src, &fl).unwrap();
    let root = doc.root().unwrap();
    assert_eq!(
        doc.get(root).unwrap().props.get("corner_radius"),
        Some(&Value::Px(12.0f32.to_bits()))
    );
    assert_eq!(doc.get(root).unwrap().children.len(), 1);
}

#[test]
fn px_value_parsed_correctly() {
    let v = root_prop("Stack { width: 200px; }", "width");
    assert_eq!(v, Some(Value::Px(200.0f32.to_bits())));
}

#[test]
fn bool_value_parsed() {
    let v = root_prop("Input { enabled: true; }", "enabled");
    assert_eq!(v, Some(Value::Bool(true)));
}

#[test]
fn line_comments_are_ignored() {
    let src = r#"
        Stack {
            width: 100px; // trailing
        }
    "#;
    let v = root_prop(src, "width");
    assert_eq!(v, Some(Value::Px(100.0f32.to_bits())));
}

#[test]
fn prop_name_dash_stripped() {
    let v = root_prop("Stack { min-width: 50px; }", "min_width");
    assert_eq!(v, Some(Value::Px(50.0f32.to_bits())));
}

#[test]
fn multiple_children_in_order() {
    let src = r#"Stack { Text { text: "a"; } Text { text: "b"; } }"#;
    let doc = parse(src, &fl).unwrap();
    let root = doc.root().unwrap();
    let children = &doc.get(root).unwrap().children;
    assert_eq!(children.len(), 2);
    assert_eq!(
        doc.get(children[0]).unwrap().props.get("content"),
        Some(&Value::Text("a".into()))
    );
    assert_eq!(
        doc.get(children[1]).unwrap().props.get("content"),
        Some(&Value::Text("b".into()))
    );
}

#[test]
fn lib_clean_input_reports_no_unsupported() {
    let report = parse_with_report(r#"Text { text: "Hi"; }"#, &fl).unwrap();
    assert!(report.unsupported.is_empty());
    assert!(report.document.root().is_some());
}

#[test]
fn callback_handler_is_recorded_not_errored() {
    let src = r#"Button { text: "Go"; clicked => { do_thing(); } }"#;
    let report = parse_with_report(src, &fl).unwrap();
    assert_eq!(report.unsupported.len(), 1);
    assert!(report.unsupported[0].text.contains("clicked"));
    let root = report.document.root().unwrap();
    assert_eq!(
        report.document.get(root).unwrap().props.get("content"),
        Some(&Value::Text("Go".into()))
    );
}

#[test]
fn two_way_binding_is_recorded() {
    let src = r#"Input { value: <=> model.value; }"#;
    let report = parse_with_report(src, &fl).unwrap();
    assert_eq!(report.unsupported.len(), 1);
    assert!(report.unsupported[0].text.contains("two-way"));
}

#[test]
fn inherits_clause_is_recorded() {
    let src = r#"
        component MyButton inherits Rectangle {
            border-radius: 4px;
        }
        MyButton {}
    "#;
    let report = parse_with_report(src, &fl).unwrap();
    assert!(report
        .unsupported
        .iter()
        .any(|u| u.text == "inherits Rectangle"));
}

#[test]
fn lib_parse_still_returns_bare_document() {
    let doc = parse(r#"Button { clicked => {} }"#, &fl).unwrap();
    assert!(doc.root().is_some());
}
