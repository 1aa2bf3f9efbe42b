use uni::float::FloatOp;
use uni::flutter_import::{parse, parse_with_report};
use uni::value::Value;

fn fl(op: &FloatOp) -> Option<u64> {
    let d = |x: f64| Some(x.to_bits());
    let s = |x: f32| Some(x.to_bits() as u64);
    let f = f32::from_bits;
    let g = f64::from_bits;
    match op {
        FloatOp::Read { text } => text.parse::<f64>().ok().map(f64::to_bits),
        FloatOp::ReadSingle { text } => text.parse::<f32>().ok().map(|x| x.to_bits() as u64),
        FloatOp::Narrow { double } => s(g(*double) as f32),
        FloatOp::Widen { single } => d(f(*single) as f64),
        FloatOp::FromInt { value } => d(*value as f64),
        FloatOp::Add { a, b } => d(g(*a) + g(*b)),
        FloatOp::Sub { a, b } => d(g(*a) - g(*b)),
        FloatOp::Mul { a, b } => d(g(*a) * g(*b)),
        FloatOp::Div { a, b } => d(g(*a) / g(*b)),
        FloatOp::AddSingle { x, y } => s(f(*x) + f(*y)),
        FloatOp::SubSingle { x, y } => s(f(*x) - f(*y)),
        FloatOp::MulSingle { x, y } => s(f(*x) * f(*y)),
        FloatOp::DivSingle { x, y } => s(f(*x) / f(*y)),
        FloatOp::SqrtSingle { x } => s(f(*x).sqrt()),
        FloatOp::FromIntSingle { value } => s(*value as f32),
        FloatOp::CeilSingle { x } => s(f(*x).ceil()),
        FloatOp::RoundSingle { x } => s(f(*x).round()),
        FloatOp::ExpSingle { x } => s(f(*x).exp()),
        FloatOp::PowSingle { x, y } => s(f(*x).powf(f(*y))),
        FloatOp::AngleSingle { y, x } => s(f(*y).atan2(f(*x))),
    }
}

fn root_prop(src: &str, key: &str) -> Option<Value> {
    let doc = parse(src, &fl).expect("parse ok");
    let root = doc.root()?;
    doc.get(root)?.props.get(key).cloned()
}

fn root_kind(src: &str) -> String {
    let doc = parse(src, &fl).expect("parse ok");
    let root = doc.root().expect("root");
    doc.get(root).expect("node").kind.clone()
}

#[test]
fn parse_text_widget() {
    let v = root_prop(r#"Text("Hello world")"#, "content");
    assert_eq!(v, Some(Value::Text("Hello world".into())));
}

#[test]
fn parse_column_with_children() {
    let src = r#"Column(children: [Text("a"), Text("b")])"#;
    let doc = parse(src, &fl).expect("parse ok");
    let root = doc.root().unwrap();
    assert_eq!(doc.get(root).unwrap().kind, "Column");
    assert_eq!(doc.get(root).unwrap().children.len(), 2);
}

#[test]
fn parse_color_argb_to_rrggbba() {
    let src = r#"Container(color: Color(0xFFE040FB))"#;
    let v = root_prop(src, "background");
    assert_eq!(v, Some(Value::Color(0xE040_FBFF)));
}

#[test]
fn parse_container_maps_to_stack() {
    assert_eq!(root_kind("Container()"), "Stack");
}

#[test]
fn parse_elevated_button_maps_to_button() {
    assert_eq!(root_kind("ElevatedButton(onPressed: submit)"), "Button");
}

#[test]
fn parse_nested_child() {
    let src = r#"Container(child: Text("inside"))"#;
    let doc = parse(src, &fl).expect("parse ok");
    let root = doc.root().unwrap();
    let children = &doc.get(root).unwrap().children;
    assert_eq!(children.len(), 1);
    let child = doc.get(children[0]).unwrap();
    assert_eq!(child.kind, "Text");
    assert_eq!(
        child.props.get("content"),
        Some(&Value::Text("inside".into()))
    );
}

#[test]
fn parse_string_single_and_double_quotes() {
    let v1 = root_prop(r#"Text("double")"#, "content");
    let v2 = root_prop("Text('single')", "content");
    assert_eq!(v1, Some(Value::Text("double".into())));
    assert_eq!(v2, Some(Value::Text("single".into())));
}

#[test]
fn parse_bool_value() {
    let src = "SizedBox(enabled: true)";
    let v = root_prop(src, "enabled");
    assert_eq!(v, Some(Value::Bool(true)));
}

#[test]
fn parse_on_pressed_becomes_callback() {
    let src = r#"ElevatedButton(onPressed: 'handleSubmit')"#;
    let doc = parse(src, &fl).expect("parse ok");
    let root = doc.root().unwrap();
    let node = doc.get(root).unwrap();
    let cb = node.callbacks.get("click");
    assert!(cb.is_some(), "expected 'click' callback");
    assert_eq!(cb.unwrap().name, "handleSubmit");
}

#[test]
fn parse_text_style_extracts_font_size() {
    let src = r#"Text("Hi", style: TextStyle(fontSize: 24.0))"#;
    let v = root_prop(src, "size");
    assert_eq!(v, Some(Value::Float(24.0f64.to_bits())));
}

#[test]
fn parse_sized_box_maps_to_rect() {
    assert_eq!(root_kind("SizedBox(width: 100.0, height: 50.0)"), "Rect");
}

#[test]
fn parse_width_height_props() {
    let src = "SizedBox(width: 200.0, height: 100.0)";
    assert_eq!(root_prop(src, "width"), Some(Value::Float(200.0f64.to_bits())));
    assert_eq!(root_prop(src, "height"), Some(Value::Float(100.0f64.to_bits())));
}

#[test]
fn parse_row_widget() {
    assert_eq!(root_kind("Row(children: [])"), "Row");
}

#[test]
fn parse_scaffold_maps_to_stack() {
    assert_eq!(root_kind("Scaffold()"), "Stack");
}

#[test]
fn parse_integer_value() {
    let v = root_prop("SizedBox(borderRadius: 8)", "corner_radius");
    assert_eq!(v, Some(Value::Int(8)));
}

#[test]
fn clean_input_reports_no_unsupported() {
    let report = parse_with_report(r#"Text("Hi")"#, &fl).unwrap();
    assert!(report.unsupported.is_empty());
    assert!(report.document.root().is_some());
}

#[test]
fn enum_valued_prop_is_recorded() {
    let src = r#"Column(mainAxisAlignment: center, children: [])"#;
    let report = parse_with_report(src, &fl).unwrap();
    assert_eq!(report.unsupported.len(), 1);
    assert!(report.unsupported[0].text.contains("mainAxisAlignment"));
    assert!(report.unsupported[0].text.contains("ident-expr"));
    assert_eq!(
        report
            .document
            .get(report.document.root().unwrap())
            .unwrap()
            .kind,
        "Column"
    );
}

#[test]
fn nested_drop_is_recorded_from_child() {
    let src = r#"Container(child: Text("hi", maxLines: someVar))"#;
    let report = parse_with_report(src, &fl).unwrap();
    assert!(report
        .unsupported
        .iter()
        .any(|u| u.text.contains("maxLines")));
}

#[test]
fn parse_still_returns_bare_document() {
    let doc = parse(r#"Column(mainAxisAlignment: center, children: [])"#, &fl).unwrap();
    assert!(doc.root().is_some());
}
