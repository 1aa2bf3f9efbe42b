use uni::float::FloatOp;
use uni::flutter_import::parse as flutter;
use uni::ir::Document;
use uni::node::NodeId;
use uni::slint_import::parse as slint;
use uni::swiftui_import::parse as swiftui;

fn fl(op: &FloatOp) -> Option<u64> {
    let d = |x: f64| Some(x.to_bits());
    let s = |x: f32| Some(x.to_bits() as u64);
    let f = f32::from_bits;
    let g = f64::from_bits;
    match op {
        FloatOp::Read { text } => text.parse::<f64>().ok().map(f64::to_bits),
        FloatOp::ReadSingle { text } => text.parse::<f32>().ok().map(|x| x.to_bits() as u64),
        FloatOp::Narrow { double } => s(g(*double) as f32),
        FloatOp::Widen { single } => d(f(*single) as f64),
        FloatOp::FromInt { value } => d(*value as f64),
        FloatOp::Add { a, b } => d(g(*a) + g(*b)),
        FloatOp::Sub { a, b } => d(g(*a) - g(*b)),
        FloatOp::Mul { a, b } => d(g(*a) * g(*b)),
        FloatOp::Div { a, b } => d(g(*a) / g(*b)),
        FloatOp::AddSingle { x, y } => s(f(*x) + f(*y)),
        FloatOp::SubSingle { x, y } => s(f(*x) - f(*y)),
        FloatOp::MulSingle { x, y } => s(f(*x) * f(*y)),
        FloatOp::DivSingle { x, y } => s(f(*x) / f(*y)),
        FloatOp::SqrtSingle { x } => s(f(*x).sqrt()),
        FloatOp::FromIntSingle { value } => s(*value as f32),
        FloatOp::CeilSingle { x } => s(f(*x).ceil()),
        FloatOp::RoundSingle { x } => s(f(*x).round()),
        FloatOp::ExpSingle { x } => s(f(*x).exp()),
        FloatOp::PowSingle { x, y } => s(f(*x).powf(f(*y))),
        FloatOp::AngleSingle { y, x } => s(f(*y).atan2(f(*x))),
    }
}

#[derive(Debug, PartialEq, Eq)]
struct Shape {
    root_kind: String,
    kind_set: Vec<String>,
    arities: Vec<usize>,
}

fn shape_of(doc: &Document) -> Shape {
    let root = doc.root().expect("document has a root");
    let root_kind = doc.get(root).expect("root node").kind.clone();

    let mut kind_set = Vec::new();
    let mut arities = Vec::new();
    walk(doc, root, &mut kind_set, &mut arities);
    kind_set.sort();

    Shape {
        root_kind,
        kind_set,
        arities,
    }
}

fn walk(doc: &Document, id: NodeId, kinds: &mut Vec<String>, arities: &mut Vec<usize>) {
    let node = doc.get(id).expect("node exists");
    kinds.push(node.kind.clone());
    arities.push(node.children.len());
    for &child in &node.children {
        walk(doc, child, kinds, arities);
    }
}

#[test]
fn button_in_column_lowers_identically_across_dialects() {
    let slint_src = r#"
        Column {
            Button {
                text: "Go";
            }
        }
    "#;

    let flutter_src = r#"Column(children: [ElevatedButton(onPressed: go)])"#;

    let swiftui_src = r#"VStack { Button("Go") { go() } }"#;

    let slint_doc = slint(slint_src, &fl).expect("slint parses");
    let flutter_doc = flutter(flutter_src, &fl).expect("flutter parses");
    let swiftui_doc = swiftui(swiftui_src, &fl).expect("swiftui parses");

    let slint_shape = shape_of(&slint_doc);
    let flutter_shape = shape_of(&flutter_doc);
    let swiftui_shape = shape_of(&swiftui_doc);

    assert_eq!(slint_shape.root_kind, "Column");
    assert_eq!(flutter_shape.root_kind, "Column");
    assert_eq!(swiftui_shape.root_kind, "Column");

    assert_eq!(slint_shape.kind_set, vec!["Button", "Column"]);

    assert_eq!(
        slint_shape, flutter_shape,
        "slint and flutter lowered to different shapes"
    );
    assert_eq!(
        flutter_shape, swiftui_shape,
        "flutter and swiftui lowered to different shapes"
    );
}

#[test]
fn empty_column_lowers_identically_across_dialects() {
    let slint_doc = slint("Column { }", &fl).expect("slint parses");
    let flutter_doc = flutter("Column(children: [])", &fl).expect("flutter parses");
    let swiftui_doc = swiftui("VStack { }", &fl).expect("swiftui parses");

    let s = shape_of(&slint_doc);
    let f = shape_of(&flutter_doc);
    let w = shape_of(&swiftui_doc);

    assert_eq!(s.root_kind, "Column");
    assert_eq!(s, f);
    assert_eq!(f, w);
}
