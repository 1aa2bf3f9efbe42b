use uni::float::FloatOp;
use uni::gesture::{event_name, GestureEvent, GestureKind, Recognizer};
use uni::input::{InputEvent, PointerButton};
use uni::node::NodeId;

fn p(x: f32) -> u32 {
    x.to_bits()
}

fn v(x: u32) -> f32 {
    f32::from_bits(x)
}

fn down(x: f32, y: f32) -> InputEvent {
    InputEvent::PointerDown { x: p(x), y: p(y), button: PointerButton::Left }
}

fn up(x: f32, y: f32) -> InputEvent {
    InputEvent::PointerUp { x: p(x), y: p(y), button: PointerButton::Left }
}

fn fl(op: &FloatOp) -> Option<u64> {
    let d = |x: f64| Some(x.to_bits());
    let s = |x: f32| Some(x.to_bits() as u64);
    let f = f32::from_bits;
    let g = f64::from_bits;
    match op {
        FloatOp::Read { text } => text.parse::<f64>().ok().map(f64::to_bits),
        FloatOp::ReadSingle { text } => text.parse::<f32>().ok().map(|x| x.to_bits() as u64),
        FloatOp::Narrow { double } => s(g(*double) as f32),
        FloatOp::Widen { single } => d(f(*single) as f64),
        FloatOp::FromInt { value } => d(*value as f64),
        FloatOp::Add { a, b } => d(g(*a) + g(*b)),
        FloatOp::Sub { a, b } => d(g(*a) - g(*b)),
        FloatOp::Mul { a, b } => d(g(*a) * g(*b)),
        FloatOp::Div { a, b } => d(g(*a) / g(*b)),
        FloatOp::AddSingle { x, y } => s(f(*x) + f(*y)),
        FloatOp::SubSingle { x, y } => s(f(*x) - f(*y)),
        FloatOp::MulSingle { x, y } => s(f(*x) * f(*y)),
        FloatOp::DivSingle { x, y } => s(f(*x) / f(*y)),
        FloatOp::SqrtSingle { x } => s(f(*x).sqrt()),
        FloatOp::FromIntSingle { value } => s(*value as f32),
        FloatOp::CeilSingle { x } => s(f(*x).ceil()),
        FloatOp::RoundSingle { x } => s(f(*x).round()),
        FloatOp::ExpSingle { x } => s(f(*x).exp()),
        FloatOp::PowSingle { x, y } => s(f(*x).powf(f(*y))),
        FloatOp::AngleSingle { y, x } => s(f(*y).atan2(f(*x))),
    }
}

#[test]
fn event_names_compose() {
    assert_eq!(event_name("drag", &GestureEvent::Recognized), "drag");
    assert_eq!(event_name("drag", &GestureEvent::Changed), "drag_changed");
    assert_eq!(event_name("drag", &GestureEvent::Ended), "drag_ended");
}

#[test]
fn recognizer_tap_needs_a_hit() {
    let mut r = Recognizer::new(NodeId(0), "tap", GestureKind::Tap { count: 1 });
    assert!(r.feed(&down(0.0, 0.0), false, &fl).is_empty());
    assert!(r.feed(&up(0.0, 0.0), false, &fl).is_empty());
    assert!(!r.is_tracking());

    assert!(r.feed(&down(5.0, 5.0), true, &fl).is_empty());
    assert_eq!(r.feed(&up(6.0, 5.0), true, &fl), vec![GestureEvent::Recognized]);
}

#[test]
fn recognizer_magnify_scale_and_end() {
    let mut r = Recognizer::new(NodeId(0), "zoom", GestureKind::Magnify);
    assert_eq!(
        r.feed(&InputEvent::Pinch { delta: p(1.0) }, false, &fl),
        vec![GestureEvent::Changed]
    );
    assert_eq!(v(r.scale()), 2.0);
    assert!(r.is_active());
    assert_eq!(r.end_continuous(), vec![GestureEvent::Ended]);
    assert!(!r.is_active());
    assert!(r.end_continuous().is_empty());
}

#[test]
fn recognizer_cancel_is_silent() {
    let mut r = Recognizer::new(NodeId(0), "tap", GestureKind::Tap { count: 2 });
    r.feed(&down(0.0, 0.0), true, &fl);
    r.feed(&up(0.0, 0.0), true, &fl);
    r.cancel();
    assert!(!r.is_tracking());
    r.feed(&down(0.0, 0.0), true, &fl);
    assert!(r.feed(&up(0.0, 0.0), true, &fl).is_empty());
}
