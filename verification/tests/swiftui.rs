use uni::float::FloatOp;
use uni::swiftui_import::{parse, parse_with_report};
use uni::value::Value;

fn fl(op: &FloatOp) -> Option<u64> {
    let d = |x: f64| Some(x.to_bits());
    let s = |x: f32| Some(x.to_bits() as u64);
    let f = f32::from_bits;
    let g = f64::from_bits;
    match op {
        FloatOp::Read { text } => text.parse::<f64>().ok().map(f64::to_bits),
        FloatOp::ReadSingle { text } => text.parse::<f32>().ok().map(|x| x.to_bits() as u64),
        FloatOp::Narrow { double } => s(g(*double) as f32),
        FloatOp::Widen { single } => d(f(*single) as f64),
        FloatOp::FromInt { value } => d(*value as f64),
        FloatOp::Add { a, b } => d(g(*a) + g(*b)),
        FloatOp::Sub { a, b } => d(g(*a) - g(*b)),
        FloatOp::Mul { a, b } => d(g(*a) * g(*b)),
        FloatOp::Div { a, b } => d(g(*a) / g(*b)),
        FloatOp::AddSingle { x, y } => s(f(*x) + f(*y)),
        FloatOp::SubSingle { x, y } => s(f(*x) - f(*y)),
        FloatOp::MulSingle { x, y } => s(f(*x) * f(*y)),
        FloatOp::DivSingle { x, y } => s(f(*x) / f(*y)),
        FloatOp::SqrtSingle { x } => s(f(*x).sqrt()),
        FloatOp::FromIntSingle { value } => s(*value as f32),
        FloatOp::CeilSingle { x } => s(f(*x).ceil()),
        FloatOp::RoundSingle { x } => s(f(*x).round()),
        FloatOp::ExpSingle { x } => s(f(*x).exp()),
        FloatOp::PowSingle { x, y } => s(f(*x).powf(f(*y))),
        FloatOp::AngleSingle { y, x } => s(f(*y).atan2(f(*x))),
    }
}

fn root_prop(src: &str, key: &str) -> Option<Value> {
    let doc = parse(src, &fl).expect("parse ok");
    let root = doc.root()?;
    doc.get(root)?.props.get(key).cloned()
}

#[test]
fn parse_vstack_becomes_column() {
    let doc = parse("VStack { }", &fl).unwrap();
    let root = doc.root().unwrap();
    assert_eq!(doc.get(root).unwrap().kind, "Column");
}

#[test]
fn parse_hstack_becomes_row() {
    let doc = parse("HStack { }", &fl).unwrap();
    let root = doc.root().unwrap();
    assert_eq!(doc.get(root).unwrap().kind, "Row");
}

#[test]
fn parse_text_with_string() {
    let doc = parse(r#"Text("Hello world")"#, &fl).unwrap();
    let root = doc.root().unwrap();
    assert_eq!(
        doc.get(root).unwrap().props.get("content"),
        Some(&Value::Text("Hello world".into()))
    );
}

#[test]
fn parse_font_title_sets_size() {
    let v = root_prop(r#"Text("Hi").font(.title)"#, "size");
    assert_eq!(v, Some(Value::Px(28.0f32.to_bits())));
}

#[test]
fn parse_foreground_color_white() {
    let v = root_prop(r#"Text("Hi").foregroundColor(.white)"#, "color");
    assert_eq!(v, Some(Value::Color(0xFFFF_FFFF)));
}

#[test]
fn parse_frame_sets_width_height() {
    let doc = parse(r#"Rectangle().frame(width: 200, height: 64)"#, &fl).unwrap();
    let root = doc.root().unwrap();
    let props = &doc.get(root).unwrap().props;
    assert_eq!(props.get("width"), Some(&Value::Px(200.0f32.to_bits())));
    assert_eq!(props.get("height"), Some(&Value::Px(64.0f32.to_bits())));
}

#[test]
fn parse_padding_modifier() {
    let v = root_prop("VStack { }.padding(16)", "padding");
    assert_eq!(v, Some(Value::Px(16.0f32.to_bits())));
}

#[test]
fn parse_button_with_closure_sets_callback() {
    let src = r#"Button("Click me") { doSomething() }"#;
    let doc = parse(src, &fl).unwrap();
    let root = doc.root().unwrap();
    assert!(doc.get(root).unwrap().callbacks.contains_key("click"));
}

#[test]
fn parse_rounded_rect_corner_radius() {
    let v = root_prop(
        "RoundedRectangle(cornerRadius: 16).frame(width: 100, height: 40)",
        "corner_radius",
    );
    let _ = v;
}

#[test]
fn parse_background_color_rgb() {
    let src = r#"VStack { }.background(Color(red: 0.49, green: 0.22, blue: 0.92))"#;
    let v = root_prop(src, "background");
    match v {
        Some(Value::Color(c)) => {
            let r = (c >> 24) & 0xFF;
            let g = (c >> 16) & 0xFF;
            let b = (c >> 8) & 0xFF;
            assert!(r > 100, "red component expected ~124, got {r}");
            assert!(g > 40 && g < 80, "green component expected ~56, got {g}");
            assert!(b > 200, "blue component expected ~234, got {b}");
        }
        other => panic!("expected Color, got {other:?}"),
    }
}

#[test]
fn parse_nested_children_in_vstack() {
    let src = r#"VStack { Text("a") Text("b") }"#;
    let doc = parse(src, &fl).unwrap();
    let root = doc.root().unwrap();
    assert_eq!(doc.get(root).unwrap().children.len(), 2);
}

#[test]
fn parse_fill_modifier_sets_background() {
    let v = root_prop("Rectangle().fill(.blue)", "background");
    assert_eq!(v, Some(Value::Color(0x0000_FFFF)));
}

#[test]
fn swiftui_clean_input_reports_no_unsupported() {
    let report = parse_with_report(r#"Text("Hi").padding(8)"#, &fl).unwrap();
    assert!(report.unsupported.is_empty());
    assert!(report.document.root().is_some());
}

#[test]
fn unknown_modifier_is_recorded() {
    let report = parse_with_report(r#"Text("Hi").shadow(radius: 4)"#, &fl).unwrap();
    assert_eq!(report.unsupported.len(), 1);
    assert_eq!(report.unsupported[0].text, "modifier .shadow");
    let root = report.document.root().unwrap();
    assert_eq!(
        report.document.get(root).unwrap().props.get("content"),
        Some(&Value::Text("Hi".into()))
    );
}

#[test]
fn nested_view_modifier_drop_is_recorded() {
    let src = r#"VStack { Text("a").accessibilityLabel("greeting") }"#;
    let report = parse_with_report(src, &fl).unwrap();
    assert!(report
        .unsupported
        .iter()
        .any(|u| u.text == "modifier .accessibilityLabel"));
}

#[test]
fn swiftui_parse_still_returns_bare_document() {
    let doc = parse(r#"Text("Hi").shadow(radius: 4)"#, &fl).unwrap();
    assert!(doc.root().is_some());
}

fn root_kind(src: &str) -> String {
    let doc = parse(src, &fl).expect("parse ok");
    let root = doc.root().expect("has root");
    doc.get(root).unwrap().kind.clone()
}

#[test]
fn parse_image_system_name_carries_content() {
    let doc = parse(r#"Image(systemName: "star.fill")"#, &fl).unwrap();
    let root = doc.root().unwrap();
    let node = doc.get(root).unwrap();
    assert_eq!(node.kind, "Image");
    assert_eq!(
        node.props.get("content"),
        Some(&Value::Text("star.fill".into()))
    );
}

#[test]
fn parse_image_named_carries_content() {
    let doc = parse(r#"Image("logo")"#, &fl).unwrap();
    let root = doc.root().unwrap();
    let node = doc.get(root).unwrap();
    assert_eq!(node.kind, "Image");
    assert_eq!(node.props.get("content"), Some(&Value::Text("logo".into())));
}

#[test]
fn parse_divider_lowers_to_divider() {
    assert_eq!(root_kind("Divider()"), "Divider");
}

#[test]
fn parse_toggle_label_and_bound_state() {
    let doc = parse(r#"Toggle("Wi-Fi", isOn: $wifiEnabled)"#, &fl).unwrap();
    let root = doc.root().unwrap();
    let node = doc.get(root).unwrap();
    assert_eq!(node.kind, "Toggle");
    assert_eq!(
        node.props.get("content"),
        Some(&Value::Text("Wi-Fi".into()))
    );
    assert_eq!(
        node.props.get("isOn"),
        Some(&Value::Text("wifiEnabled".into()))
    );
}

#[test]
fn parse_slider_value_and_range() {
    let doc = parse(r#"Slider(value: $volume, in: 0...100)"#, &fl).unwrap();
    let root = doc.root().unwrap();
    let node = doc.get(root).unwrap();
    assert_eq!(node.kind, "Slider");
    assert_eq!(
        node.props.get("value"),
        Some(&Value::Text("volume".into()))
    );
    assert_eq!(node.props.get("range_min"), Some(&Value::Float(0.0f64.to_bits())));
    assert_eq!(node.props.get("range_max"), Some(&Value::Float(100.0f64.to_bits())));
}

#[test]
fn parse_progressview_with_value() {
    let doc = parse(r#"ProgressView(value: 0.5)"#, &fl).unwrap();
    let root = doc.root().unwrap();
    let node = doc.get(root).unwrap();
    assert_eq!(node.kind, "ProgressView");
    assert_eq!(node.props.get("value"), Some(&Value::Float(0.5f64.to_bits())));
}

#[test]
fn parse_progressview_indeterminate() {
    let doc = parse(r#"ProgressView()"#, &fl).unwrap();
    let root = doc.root().unwrap();
    let node = doc.get(root).unwrap();
    assert_eq!(node.kind, "ProgressView");
    assert!(!node.props.contains_key("value"));
}

#[test]
fn parse_opacity_modifier() {
    let v = root_prop(r#"Text("Hi").opacity(0.4)"#, "opacity");
    assert_eq!(v, Some(Value::Px(0.4f32.to_bits())));
}

#[test]
fn parse_hidden_modifier() {
    let v = root_prop(r#"Text("Hi").hidden()"#, "hidden");
    assert_eq!(v, Some(Value::Bool(true)));
}

#[test]
fn parse_is_hidden_property_modifier() {
    let v = root_prop(r#"Text("Hi").isHidden"#, "hidden");
    assert_eq!(v, Some(Value::Bool(true)));
}

#[test]
fn parse_clip_shape_rounded_rect_corner_radius() {
    let v = root_prop(
        r#"Rectangle().clipShape(RoundedRectangle(cornerRadius: 12))"#,
        "corner_radius",
    );
    assert_eq!(v, Some(Value::Px(12.0f32.to_bits())));
}

#[test]
fn parse_foreground_style_aliases_color() {
    let v = root_prop(r#"Text("Hi").foregroundStyle(.red)"#, "color");
    assert_eq!(v, Some(Value::Color(0xFF00_00FF)));
}

#[test]
fn parse_bold_sets_weight() {
    let v = root_prop(r#"Text("Hi").bold()"#, "weight");
    assert_eq!(v, Some(Value::Text("bold".into())));
}

#[test]
fn parse_font_weight_bold_sets_weight() {
    let v = root_prop(r#"Text("Hi").fontWeight(.bold)"#, "weight");
    assert_eq!(v, Some(Value::Text("bold".into())));
}

#[test]
fn parse_italic_sets_italic() {
    let v = root_prop(r#"Text("Hi").italic()"#, "italic");
    assert_eq!(v, Some(Value::Bool(true)));
}

#[test]
fn parse_frame_max_width_infinity_sets_grow() {
    let v = root_prop(r#"Text("Hi").frame(maxWidth: .infinity)"#, "grow");
    assert_eq!(v, Some(Value::Float(1.0f64.to_bits())));
}

#[test]
fn unknown_modifier_among_supported_is_reported() {
    let report = parse_with_report(r#"Text("Hi").bold().blur(radius: 3).italic()"#, &fl).unwrap();
    assert_eq!(report.unsupported.len(), 1);
    assert_eq!(report.unsupported[0].text, "modifier .blur");
    let root = report.document.root().unwrap();
    let node = report.document.get(root).unwrap();
    assert_eq!(node.props.get("weight"), Some(&Value::Text("bold".into())));
    assert_eq!(node.props.get("italic"), Some(&Value::Bool(true)));
}

#[test]
fn unknown_property_modifier_is_reported() {
    let report = parse_with_report(r#"Text("Hi").redacted"#, &fl).unwrap();
    assert!(report
        .unsupported
        .iter()
        .any(|u| u.text == "modifier .redacted"));
}
