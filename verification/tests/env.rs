use uni::env::{
    BuildVariant, Env, HeightClass, InputMode, SurfaceKind, WidthClass, ACCENT_INTERNAL, ACCENT_PUBLIC,
};
use uni::float::FloatOp;

fn p(x: f32) -> u32 {
    x.to_bits()
}

fn v(x: u32) -> f32 {
    f32::from_bits(x)
}

fn fl(op: &FloatOp) -> Option<u64> {
    let d = |x: f64| Some(x.to_bits());
    let s = |x: f32| Some(x.to_bits() as u64);
    let f = f32::from_bits;
    let g = f64::from_bits;
    match op {
        FloatOp::Read { text } => text.parse::<f64>().ok().map(f64::to_bits),
        FloatOp::ReadSingle { text } => text.parse::<f32>().ok().map(|x| x.to_bits() as u64),
        FloatOp::Narrow { double } => s(g(*double) as f32),
        FloatOp::Widen { single } => d(f(*single) as f64),
        FloatOp::FromInt { value } => d(*value as f64),
        FloatOp::Add { a, b } => d(g(*a) + g(*b)),
        FloatOp::Sub { a, b } => d(g(*a) - g(*b)),
        FloatOp::Mul { a, b } => d(g(*a) * g(*b)),
        FloatOp::Div { a, b } => d(g(*a) / g(*b)),
        FloatOp::AddSingle { x, y } => s(f(*x) + f(*y)),
        FloatOp::SubSingle { x, y } => s(f(*x) - f(*y)),
        FloatOp::MulSingle { x, y } => s(f(*x) * f(*y)),
        FloatOp::DivSingle { x, y } => s(f(*x) / f(*y)),
        FloatOp::SqrtSingle { x } => s(f(*x).sqrt()),
        FloatOp::FromIntSingle { value } => s(*value as f32),
        FloatOp::CeilSingle { x } => s(f(*x).ceil()),
        FloatOp::RoundSingle { x } => s(f(*x).round()),
        FloatOp::ExpSingle { x } => s(f(*x).exp()),
        FloatOp::PowSingle { x, y } => s(f(*x).powf(f(*y))),
        FloatOp::AngleSingle { y, x } => s(f(*y).atan2(f(*x))),
    }
}

#[test]
fn width_class_thresholds() {
    assert_eq!(
        Env::for_window(p(599.0), p(800.0)).width_class(),
        WidthClass::Compact
    );
    assert_eq!(
        Env::for_window(p(600.0), p(800.0)).width_class(),
        WidthClass::Medium
    );
    assert_eq!(
        Env::for_window(p(839.0), p(800.0)).width_class(),
        WidthClass::Medium
    );
    assert_eq!(
        Env::for_window(p(840.0), p(800.0)).width_class(),
        WidthClass::Expanded
    );
    assert_eq!(
        Env::for_window(p(0.0), p(800.0)).width_class(),
        WidthClass::Compact
    );
}

#[test]
fn height_class_thresholds() {
    assert_eq!(
        Env::for_window(p(800.0), p(479.0)).height_class(),
        HeightClass::Short
    );
    assert_eq!(
        Env::for_window(p(800.0), p(480.0)).height_class(),
        HeightClass::Tall
    );
    assert_eq!(
        Env::for_window(p(800.0), p(1000.0)).height_class(),
        HeightClass::Tall
    );
}

#[test]
fn accent_selects_violet_for_internal() {
    let mut env = Env::for_window(p(1024.0), p(768.0));
    env.build_variant = BuildVariant::Internal;
    assert_eq!(env.accent(), 0x7D39_EBFF);
    assert_eq!(env.accent(), ACCENT_INTERNAL);
}

#[test]
fn accent_selects_lime_for_public() {
    let mut env = Env::for_window(p(1024.0), p(768.0));
    env.build_variant = BuildVariant::Public;
    assert_eq!(env.accent(), 0xC6FF_33FF);
    assert_eq!(env.accent(), ACCENT_PUBLIC);
    assert_ne!(env.accent(), 0x10B9_81FF);
}

#[test]
fn vw_vh_math() {
    let env = Env::for_window(p(1000.0), p(500.0));
    assert_eq!(v(env.vw(p(100.0), &fl)), 1000.0);
    assert_eq!(v(env.vw(p(50.0), &fl)), 500.0);
    assert_eq!(v(env.vw(p(0.0), &fl)), 0.0);
    assert_eq!(v(env.vh(p(100.0), &fl)), 500.0);
    assert_eq!(v(env.vh(p(10.0), &fl)), 50.0);
    assert_eq!(v(env.vh(p(0.0), &fl)), 0.0);
}

#[test]
fn is_touch_reflects_input_mode() {
    let mut env = Env::for_window(p(400.0), p(800.0));
    env.input_mode = InputMode::Touch;
    assert!(env.is_touch());
    env.input_mode = InputMode::Pointer;
    assert!(!env.is_touch());
    env.input_mode = InputMode::Remote;
    assert!(!env.is_touch());
}

#[test]
fn for_window_defaults() {
    let env = Env::for_window(p(1280.0), p(720.0));
    assert_eq!(v(env.density), 1.0);
    assert_eq!(v(env.text_scale), 1.0);
    assert_eq!(env.input_mode, InputMode::Pointer);
    assert_eq!(env.build_variant, BuildVariant::Public);
    assert_eq!(env.surface_kind, SurfaceKind::Desktop);
}
