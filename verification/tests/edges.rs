use uni::animation::{parse_animation, Curve};
use uni::audit::{log_line, JsonlSink};
use uni::dsl::{parse, ParseError};
use uni::env::Env;
use uni::expr::{eval_binding, Evaluated, Expr};
use uni::float::FloatOp;
use uni::flutter_import::{self, FlutterImportError};
use uni::frame::{frame_error, SurfaceFailure};
use uni::ir::IrError;
use uni::node::NodeId;
use uni::renderer::RenderError;
use uni::slint_import::{self, SlintImportError};
use uni::store::Store;
use uni::swiftui_import::{self, SwiftUIImportError};
use uni::text::{decimal_text, is_before, parse_i64, signed_decimal_text, trim};
use uni::value::Value;

fn fl(op: &FloatOp) -> Option<u64> {
    let d = |x: f64| Some(x.to_bits());
    let s = |x: f32| Some(x.to_bits() as u64);
    let f = f32::from_bits;
    let g = f64::from_bits;
    match op {
        FloatOp::Read { text } => text.parse::<f64>().ok().map(f64::to_bits),
        FloatOp::ReadSingle { text } => text.parse::<f32>().ok().map(|x| x.to_bits() as u64),
        FloatOp::Narrow { double } => s(g(*double) as f32),
        FloatOp::Widen { single } => d(f(*single) as f64),
        FloatOp::FromInt { value } => d(*value as f64),
        FloatOp::Add { a, b } => d(g(*a) + g(*b)),
        FloatOp::Sub { a, b } => d(g(*a) - g(*b)),
        FloatOp::Mul { a, b } => d(g(*a) * g(*b)),
        FloatOp::Div { a, b } => d(g(*a) / g(*b)),
        FloatOp::AddSingle { x, y } => s(f(*x) + f(*y)),
        FloatOp::SubSingle { x, y } => s(f(*x) - f(*y)),
        FloatOp::MulSingle { x, y } => s(f(*x) * f(*y)),
        FloatOp::DivSingle { x, y } => s(f(*x) / f(*y)),
        FloatOp::SqrtSingle { x } => s(f(*x).sqrt()),
        FloatOp::FromIntSingle { value } => s(*value as f32),
        FloatOp::CeilSingle { x } => s(f(*x).ceil()),
        FloatOp::RoundSingle { x } => s(f(*x).round()),
        FloatOp::ExpSingle { x } => s(f(*x).exp()),
        FloatOp::PowSingle { x, y } => s(f(*x).powf(f(*y))),
        FloatOp::AngleSingle { y, x } => s(f(*y).atan2(f(*x))),
    }
}

fn flutter(src: &str) -> FlutterImportError {
    flutter_import::parse(src, &fl).unwrap_err()
}

fn slint(src: &str) -> SlintImportError {
    slint_import::parse(src, &fl).unwrap_err()
}

fn swift(src: &str) -> SwiftUIImportError {
    swiftui_import::parse(src, &fl).unwrap_err()
}

#[test]
fn flutter_errors_name_their_cause_and_line() {
    for (src, message, line) in [
        ("Text(\"open", "unterminated string literal", 1),
        ("Text(\"open\\", "unterminated escape", 1),
        ("Column(\n  children: [Text('a')", "unexpected EOF in list", 2),
        ("Container(color: Color(12))", "expected '0x' for Color literal", 1),
        ("Container(color: Color(0x))", "invalid hex in Color literal", 1),
        ("Container(color: Color(0xFF00FF00]", "expected ')', got ']'", 1),
        ("Container(width:", "unexpected EOF while parsing value", 1),
        ("Container(width: 1", "unexpected EOF in argument list", 1),
        ("Container(width: ])", "expected a value", 1),
    ] {
        let e = flutter(src);
        assert_eq!((e.message.as_str(), e.line), (message, line), "{src}");
        assert_eq!(e.to_text(), format!("flutter-import error at line {line}: {message}"));
    }
}

#[test]
fn slint_errors_name_their_cause_and_line() {
    for (src, message, line) in [
        ("Text { text: \"open", "unterminated string literal", 1),
        ("Text { text: \"open\\", "unterminated escape", 1),
        ("Text {\n color: #12; }", "hex color must be 6 or 8 digits, got 2", 2),
        ("Text { text:", "unexpected end of input while reading value", 1),
        ("Text { width: 1px; ", "unexpected EOF inside element body", 1),
        ("Text { ] }", "expected property name or child element", 1),
        ("Text { width 3 }", "expected ':' or '{' after 'width'", 1),
        ("component { }", "expected component name", 1),
        ("Text ]", "expected '{', got ']'", 1),
        ("Text", "expected '{', got EOF", 1),
    ] {
        let e = slint(src);
        assert_eq!((e.message.as_str(), e.line), (message, line), "{src}");
        assert_eq!(e.to_text(), format!("slint-import error at line {line}: {message}"));
    }
}

#[test]
fn swiftui_errors_name_their_cause_and_line() {
    for (src, message, line) in [
        ("Text(\"open", "unterminated string", 1),
        ("Text(\n\"open\\", "unterminated escape", 2),
        ("Text(\"a\").opacity(", "unexpected EOF in value", 1),
    ] {
        let e = swift(src);
        assert_eq!((e.message.as_str(), e.line), (message, line), "{src}");
        assert_eq!(e.to_text(), format!("swiftui-import error at line {line}: {message}"));
    }
}

#[test]
fn source_errors_in_words() {
    let lex = parse("Stack { @ }", &fl).unwrap_err();
    assert_eq!(lex, ParseError::Lex { start: 8, end: 9 });
    assert_eq!(lex.to_text(), "lex error: unrecognized input at bytes 8..9");
    match parse("Stack {", &fl) {
        Err(ParseError::Parse { message }) => assert!(message.starts_with("expected ")),
        other => panic!("{other:?}"),
    }
    let lower = ParseError::Lower { message: "x".to_string() };
    assert_eq!(lower.to_text(), "lowering error: x");
}

#[test]
fn expressions_at_the_edges() {
    let mut store = Store::new();
    store.set("big", Value::Int(i64::MAX));
    store.set("\u{e9}t\u{e9}2", Value::Int(5));
    assert!(matches!(eval_binding("big + 1", &store, &fl), Evaluated::Overflow));
    assert!(matches!(eval_binding("big / 0", &store, &fl), Evaluated::Nothing));
    assert!(matches!(eval_binding("absent + 1", &store, &fl), Evaluated::Nothing));
    assert!(matches!(eval_binding("7 / 2", &store, &fl), Evaluated::Is(Value::Int(3))));
    // Letters and digits beyond the first hundred and twenty eight belong to names.
    assert_eq!(Expr::parse("\u{e9}t\u{e9}2", &fl).eval(&store, &fl), Some(Value::Int(5)));
    assert_eq!(Expr::parse("\u{a0}\u{e9}t\u{e9}2\u{2003}", &fl).eval(&store, &fl), Some(Value::Int(5)));
}

#[test]
fn animation_words_are_parted_by_any_white() {
    let a = parse_animation("200ms\u{2003}linear", &fl);
    assert_eq!(a.curve, Curve::Linear);
    assert_eq!(f32::from_bits(a.duration), 0.2);
    let b = parse_animation("what ever", &fl);
    assert_eq!(b.curve, Curve::EaseInOut);
    assert_eq!(f32::from_bits(b.duration), 0.3);
    let c = parse_animation("0ms ease-in", &fl);
    assert_eq!(f32::from_bits(c.duration), 1e-3);
}

#[test]
fn texts_and_numbers() {
    assert_eq!(trim("\u{2003} a b\n"), "a b");
    assert_eq!(decimal_text(0), "0");
    assert_eq!(decimal_text(u64::MAX), "18446744073709551615");
    assert_eq!(signed_decimal_text(i64::MIN), "-9223372036854775808");
    assert_eq!(parse_i64("-9223372036854775808"), Some(i64::MIN));
    assert_eq!(parse_i64("9223372036854775808"), None);
    assert_eq!(parse_i64("+7"), Some(7));
    assert_eq!(parse_i64(""), None);
    assert!(is_before("a", "b") && is_before("", "a") && !is_before("b", "b"));
}

#[test]
fn a_line_of_a_log_ends() {
    assert_eq!(log_line("{}"), "{}\n");
    let sink = JsonlSink::new(vec![1u8]);
    assert_eq!(sink.output(), &vec![1u8]);
    assert_eq!(sink.into_inner(), vec![1u8]);
}

#[test]
fn failures_of_a_surface() {
    assert!(matches!(frame_error(SurfaceFailure::Lost), RenderError::SurfaceLost));
    assert!(matches!(frame_error(SurfaceFailure::Outdated), RenderError::SurfaceLost));
    assert!(matches!(frame_error(SurfaceFailure::OutOfMemory), RenderError::OutOfMemory));
    assert!(matches!(frame_error(SurfaceFailure::Timeout), RenderError::Transient));
}

#[test]
fn error_values_differ_by_node() {
    assert_ne!(IrError::NoSuchNode(NodeId(1)), IrError::NoSuchNode(NodeId(2)));
    let env = Env::for_window(400f32.to_bits(), 300f32.to_bits());
    assert_eq!(f32::from_bits(env.vw(50f32.to_bits(), &fl)), 200.0);
}

#[test]
fn animation_words_come_in_any_order() {
    for words in ["spring 500ms", "500ms spring", "500ms linear SPRING", "spring ease-in 500ms"] {
        let a = parse_animation(words, &fl);
        assert!(matches!(a.curve, Curve::Spring { .. }), "{words}");
        assert_eq!(a.duration, 0.5f32.to_bits(), "{words}");
    }
    let b = parse_animation("linear 200ms", &fl);
    assert!(matches!(b.curve, Curve::Linear));
    assert_eq!(b.duration, 0.2f32.to_bits());
}

#[test]
fn flutter_omissions_name_their_line() {
    let report =
        uni::flutter_import::parse_with_report("Column(mainAxisAlignment: center, children: [])", &fl).unwrap();
    assert_eq!(report.unsupported.len(), 1);
    assert_eq!(report.unsupported[0].line, 1);
    assert_eq!(report.unsupported[0].text, "prop 'mainAxisAlignment' = ident-expr");
    let root = report.document.root().unwrap();
    assert_eq!(report.document.get(root).unwrap().kind, "Column");
    let deep = "Column(\n  children: [\n    Row(\n      padding:\n        EdgeInsets(),\n    ),\n  ],\n)";
    let report = uni::flutter_import::parse_with_report(deep, &fl).unwrap();
    assert_eq!(report.unsupported.len(), 1);
    assert_eq!(report.unsupported[0].line, 4);
}

#[test]
fn a_slint_component_that_uses_itself_is_not_expanded() {
    let fine = "component Card { Text { } } Stack { Card { } Card { } }";
    assert!(uni::slint_import::parse_within(fine, 1, &fl).is_none());
    let report = uni::slint_import::parse_within(fine, 8, &fl).unwrap().unwrap();
    assert_eq!(report.document.len(), 5);
    assert_eq!(report.document, uni::slint_import::parse(fine, &fl).unwrap());
    let deeper = uni::slint_import::parse_within(fine, 60, &fl).unwrap().unwrap();
    assert_eq!(report.document, deeper.document);
    let endless = "component Card { Card { } } Stack { Card { } }";
    assert!(uni::slint_import::parse_within(endless, 40, &fl).is_none());
    let wrong = uni::slint_import::parse_within("Stack {", 8, &fl).unwrap();
    assert_eq!(wrong.unwrap_err().message, slint("Stack {").message);
}

#[test]
fn a_swiftui_source_that_is_never_read_to_its_end() {
    for src in ["Text(\"a\").frame(;)", "Text(\"a\").foregroundColor(Color(red", "Rect().clipShape(RoundedRectangle(;"] {
        assert!(uni::swiftui_import::try_parse(src, &fl).is_none(), "{src}");
    }
    let fine = "VStack { Text(\"a\").frame(width: 10) }";
    let report = uni::swiftui_import::try_parse(fine, &fl).unwrap().unwrap();
    assert_eq!(report.document, uni::swiftui_import::parse(fine, &fl).unwrap());
    let wrong = "Text(\"a";
    assert_eq!(uni::swiftui_import::try_parse(wrong, &fl).unwrap().unwrap_err().message, swift(wrong).message);
}

#[test]
fn white_space_letters_and_digits() {
    let mut white = vec![];
    for x in 0..0x3100u32 {
        if let Some(c) = char::from_u32(x) {
            if c.is_whitespace() {
                white.push(x);
            }
        }
    }
    let listed: Vec<u32> = (0x09..=0x0D)
        .chain([0x20, 0x85, 0xA0, 0x1680])
        .chain(0x2000..=0x200A)
        .chain([0x2028, 0x2029, 0x202F, 0x205F, 0x3000])
        .collect();
    assert_eq!(white, listed);
    for x in 0..128u8 {
        let c = x as char;
        assert_eq!(c.is_alphabetic(), c.is_ascii_alphabetic());
        assert_eq!(c.is_numeric(), c.is_ascii_digit());
    }
}

fn labels(doc: &uni::ir::Document, key: &str) -> Vec<String> {
    doc.ids()
        .into_iter()
        .filter_map(|id| match doc.get(id).unwrap().props.get(key) {
            Some(uni::value::Value::Text(t)) => Some(t.clone()),
            _ => None,
        })
        .collect()
}

#[test]
fn labels_keep_their_script() {
    let word = "Gr\u{fc}\u{df}e \u{65e5}\u{672c} \u{1f600}";
    let doc = uni::flutter_import::parse(&format!("Text('{word}')"), &fl).unwrap();
    assert!(labels(&doc, "content").contains(&word.to_string()));
    let doc = uni::slint_import::parse(&format!("Text {{ text: \"{word}\"; }}"), &fl).unwrap();
    assert!(labels(&doc, "content").contains(&word.to_string()));
    let doc = uni::swiftui_import::parse(&format!("Text(\"{word}\")"), &fl).unwrap();
    assert!(labels(&doc, "content").contains(&word.to_string()));
    let doc = uni::flutter_import::parse("Text('a\\\u{e9}\\nb')", &fl).unwrap();
    assert_eq!(labels(&doc, "content"), vec!["a\u{e9}\nb".to_string()]);
}

#[test]
fn bytes_become_text() {
    let text = "a\u{7f}\u{80}\u{7ff}\u{800}\u{d7ff}\u{e000}\u{ffff}\u{10000}\u{10ffff}";
    assert_eq!(uni::utf8::decode(&text.as_bytes().to_vec()), text);
    assert_eq!(uni::utf8::decode(&vec![0xc3, 0x28, 0xed, 0xa0, 0x80, 0xff]), "\u{fffd}(\u{fffd}\u{fffd}\u{fffd}\u{fffd}");
    assert_eq!(uni::utf8::decode(&vec![0xc0, 0x80, 0xf4, 0x90, 0x80, 0x80]), "\u{fffd}".repeat(6));
}
