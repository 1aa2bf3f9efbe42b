use uni::blur::{normalized_half_kernel, sigma_for_radius, taps_for_sigma, MAX_BLUR_RADIUS};
use uni::canvas::{CanvasRenderer, LightOp};
use uni::color::Rgba;
use uni::float::FloatOp;
use uni::frame::{frame_error, pick_format, wants_high_power, FillJob, Surface, SurfaceFailure};
use uni::input::{
    key_name, map_button, translate_window_event, InputEvent, Keystroke, MouseKey, PointerButton, WindowInput,
    SCROLL_LINE_HEIGHT,
};
use uni::png::encode_rgba;
use uni::renderer::RenderError;
use uni::scene::{DrawCmd, Fill, Shape};

fn p(x: f32) -> u32 {
    x.to_bits()
}

fn v(x: u32) -> f32 {
    f32::from_bits(x)
}

fn d(x: f64) -> u64 {
    x.to_bits()
}

fn light(op: LightOp) -> u32 {
    match op {
        LightOp::Linear { packed, channel } => {
            let c = ((packed >> (24 - 8 * channel as u32)) & 0xff) as f32 / 255.0;
            let linear = if channel == 3 {
                c
            } else if c <= 0.04045 {
                c / 12.92
            } else {
                ((c + 0.055) / 1.055).powf(2.4)
            };
            linear.to_bits()
        }
        LightOp::Packed { r, g, b, a } => {
            let byte = |c: f32| (c.clamp(0.0, 1.0) * 255.0).round() as u32;
            let curve = |bits: u32| {
                let c = f32::from_bits(bits);
                if c <= 0.0031308 {
                    c * 12.92
                } else {
                    1.055 * c.powf(1.0 / 2.4) - 0.055
                }
            };
            (byte(curve(r)) << 24) | (byte(curve(g)) << 16) | (byte(curve(b)) << 8) | byte(f32::from_bits(a))
        }
    }
}

fn sigma(radius: f32) -> f32 {
    v(sigma_for_radius(p(radius), &fl))
}

fn taps(sigma: f32) -> i32 {
    taps_for_sigma(p(sigma), &fl)
}

fn kernel(sigma: f32, radius: i32) -> Vec<f32> {
    normalized_half_kernel(p(sigma), radius, &fl).into_iter().map(v).collect()
}

fn fl(op: &FloatOp) -> Option<u64> {
    let d = |x: f64| Some(x.to_bits());
    let s = |x: f32| Some(x.to_bits() as u64);
    let f = f32::from_bits;
    let g = f64::from_bits;
    match op {
        FloatOp::Read { text } => text.parse::<f64>().ok().map(f64::to_bits),
        FloatOp::ReadSingle { text } => text.parse::<f32>().ok().map(|x| x.to_bits() as u64),
        FloatOp::Narrow { double } => s(g(*double) as f32),
        FloatOp::Widen { single } => d(f(*single) as f64),
        FloatOp::FromInt { value } => d(*value as f64),
        FloatOp::Add { a, b } => d(g(*a) + g(*b)),
        FloatOp::Sub { a, b } => d(g(*a) - g(*b)),
        FloatOp::Mul { a, b } => d(g(*a) * g(*b)),
        FloatOp::Div { a, b } => d(g(*a) / g(*b)),
        FloatOp::AddSingle { x, y } => s(f(*x) + f(*y)),
        FloatOp::SubSingle { x, y } => s(f(*x) - f(*y)),
        FloatOp::MulSingle { x, y } => s(f(*x) * f(*y)),
        FloatOp::DivSingle { x, y } => s(f(*x) / f(*y)),
        FloatOp::SqrtSingle { x } => s(f(*x).sqrt()),
        FloatOp::FromIntSingle { value } => s(*value as f32),
        FloatOp::CeilSingle { x } => s(f(*x).ceil()),
        FloatOp::RoundSingle { x } => s(f(*x).round()),
        FloatOp::ExpSingle { x } => s(f(*x).exp()),
        FloatOp::PowSingle { x, y } => s(f(*x).powf(f(*y))),
        FloatOp::AngleSingle { y, x } => s(f(*y).atan2(f(*x))),
    }
}

#[test]
fn sigma_scales_with_radius_and_has_floor() {
    assert!((sigma(12.0) - 4.0).abs() < 1e-6);
    assert!(sigma(0.0) >= 0.5);
    assert!(sigma(0.3) >= 0.5);
}

#[test]
fn taps_cover_three_sigma_and_clamp() {
    assert_eq!(taps(4.0), 12);
    assert_eq!(taps(0.5), 2);
    assert!(taps(0.0) >= 1);
    assert_eq!(taps(1000.0), MAX_BLUR_RADIUS);
}

#[test]
fn half_kernel_is_normalized() {
    let sigma = 3.0;
    let radius = taps(sigma);
    let k = kernel(sigma, radius);
    let total = k[0] + 2.0 * k[1..].iter().sum::<f32>();
    assert!((total - 1.0).abs() < 1e-5, "kernel must sum to 1, got {total}");
}

#[test]
fn half_kernel_is_monotonically_decreasing() {
    let k = kernel(3.0, 9);
    for w in k.windows(2) {
        assert!(w[0] >= w[1], "Gaussian weights must not increase outward");
    }
    assert!(k[0] > k[k.len() - 1]);
}

#[test]
fn larger_sigma_spreads_weight_outward() {
    let narrow = kernel(1.0, taps(1.0));
    let wide = kernel(6.0, taps(6.0));
    assert!(wide[0] < narrow[0]);
}

#[test]
fn half_kernel_of_one_tap() {
    let k = kernel(1.0, 1);
    let e = (-0.5f32).exp();
    assert_eq!(k.len(), 2);
    assert_eq!(k[0], 1.0 / (1.0 + 2.0 * e));
    assert_eq!(k[1], e / (1.0 + 2.0 * e));
}

#[test]
fn canvas_renders_filled_rect_into_pixels() {
    let mut r = CanvasRenderer::new(10, 10);
    let scene = vec![DrawCmd::filled_rect(p(2.0), p(2.0), p(4.0), p(4.0), 0xFF0000FF, p(0.0))];
    r.render(&scene, &fl, &light).unwrap();
    let idx = (3 * 10 + 3) * 4;
    assert_eq!(r.pixels[idx], 255, "R channel");
    assert_eq!(r.pixels[idx + 1], 0, "G channel");
    assert_eq!(r.pixels[idx + 2], 0, "B channel");
}

#[test]
fn canvas_leaves_the_rest_blank() {
    let mut r = CanvasRenderer::new(10, 10);
    let scene = vec![DrawCmd::filled_rect(p(2.0), p(2.0), p(4.0), p(4.0), 0xFF0000FF, p(0.0))];
    r.render(&scene, &fl, &light).unwrap();
    for y in 0..10 {
        for x in 0..10 {
            let inside = (2..6).contains(&x) && (2..6).contains(&y);
            let at = (y * 10 + x) * 4;
            assert_eq!(r.pixels[at + 3], if inside { 255 } else { 0 }, "alpha at {x},{y}");
        }
    }
}

#[test]
fn canvas_clears_between_renders() {
    let mut r = CanvasRenderer::new(4, 4);
    let scene = vec![DrawCmd::filled_rect(p(0.0), p(0.0), p(4.0), p(4.0), 0x00FF00FF, p(0.0))];
    r.render(&scene, &fl, &light).unwrap();
    r.render(&vec![], &fl, &light).unwrap();
    assert!(r.pixels.iter().all(|&p| p == 0), "pixels should be cleared");
}

#[test]
fn pinch_and_rotate_carry_delta() {
    assert_eq!(
        InputEvent::Pinch { delta: p(0.25) },
        InputEvent::Pinch { delta: p(0.25) }
    );
    assert_ne!(
        InputEvent::Rotate { delta: p(0.1) },
        InputEvent::Rotate { delta: p(0.2) }
    );
    match (InputEvent::Pinch { delta: p(-0.3) }) {
        InputEvent::Pinch { delta } => assert_eq!(v(delta), -0.3),
        _ => unreachable!("constructed a Pinch"),
    }
}

#[test]
fn encodes_valid_png_header() {
    let pixels = vec![255u8; 4 * 4 * 4];
    let png = encode_rgba(4, 4, &pixels);
    assert_eq!(&png[..8], &[0x89, b'P', b'N', b'G', 0x0D, 0x0A, 0x1A, 0x0A]);
    assert_eq!(&png[12..16], b"IHDR");
    assert_eq!(&png[png.len() - 8..png.len() - 4], b"IEND");
    assert!(png.len() > 50, "non-trivial PNG bytes");
}

#[test]
fn ihdr_records_dimensions_and_rgba() {
    let png = encode_rgba(3, 2, &[0u8; 3 * 2 * 4]);
    let w = u32::from_be_bytes([png[16], png[17], png[18], png[19]]);
    let h = u32::from_be_bytes([png[20], png[21], png[22], png[23]]);
    assert_eq!((w, h), (3, 2));
    assert_eq!(png[24], 8, "bit depth 8");
    assert_eq!(png[25], 6, "color type RGBA");
}

#[test]
fn adler_and_crc_are_nonzero() {
    let png = encode_rgba(2, 2, &[128u8; 2 * 2 * 4]);
    assert!(png.windows(4).any(|w| w == b"IDAT"), "has IDAT chunk");
}

#[test]
fn one_black_pixel_as_png() {
    let png = encode_rgba(1, 1, &[0, 0, 0, 255]);
    let expected: Vec<u8> = vec![
        0x89, 0x50, 0x4E, 0x47, 0x0D, 0x0A, 0x1A, 0x0A, 0, 0, 0, 13, 0x49, 0x48, 0x44, 0x52, 0, 0, 0, 1, 0, 0, 0,
        1, 8, 6, 0, 0, 0, 0x1F, 0x15, 0xC4, 0x89, 0, 0, 0, 16, 0x49, 0x44, 0x41, 0x54, 0x78, 0x01, 0x01, 5, 0,
        0xFA, 0xFF, 0, 0, 0, 0, 0xFF,
    ];
    assert_eq!(&png[..expected.len()], &expected[..]);
    assert_eq!(&png[expected.len()..expected.len() + 4], &[1, 4, 1, 0]);
}

#[test]
fn linear_fill_samples_endpoints_and_midpoint() {
    let f = Fill::Linear {
        start: (p(0.0), p(0.0)),
        end: (p(1.0), p(0.0)),
        stops: vec![(p(0.0), 0x000000FF), (p(1.0), 0xFFFFFFFF)],
    };
    assert_eq!(f.sample(p(0.0), p(0.0), &fl), 0x000000FF, "start = first stop");
    assert_eq!(f.sample(p(1.0), p(0.0), &fl), 0xFFFFFFFF, "end = last stop");
    let mid = f.sample(p(0.5), p(0.0), &fl);
    let r = (mid >> 24) & 0xff;
    assert!((120..=135).contains(&r), "midpoint near 50% ({r})");
}

#[test]
fn radial_fill_center_is_first_stop() {
    let f = Fill::Radial {
        center: (p(0.5), p(0.5)),
        start_radius: p(0.0),
        end_radius: p(0.5),
        stops: vec![(p(0.0), 0xFF0000FF), (p(1.0), 0x0000FFFF)],
    };
    assert_eq!(f.sample(p(0.5), p(0.5), &fl), 0xFF0000FF, "center = first stop");
}

#[test]
fn representative_color_is_first_stop() {
    let f = Fill::Linear {
        start: (p(0.0), p(0.0)),
        end: (p(1.0), p(1.0)),
        stops: vec![(p(0.0), 0x112233FF), (p(1.0), 0x445566FF)],
    };
    assert_eq!(f.representative_color(), 0x112233FF);
    assert_eq!(Fill::Solid(0xABCDEF12).representative_color(), 0xABCDEF12);
}

#[test]
fn filled_shape_constructor_is_axis_aligned() {
    let c = DrawCmd::filled_shape(p(1.0), p(2.0), p(3.0), p(4.0), Shape::Circle, Fill::Solid(0xFF));
    match c {
        DrawCmd::FilledShape { rotation, shape, .. } => {
            assert_eq!(v(rotation), 0.0);
            assert_eq!(shape, Shape::Circle);
        }
        _ => panic!("expected FilledShape"),
    }
}

#[test]
fn button_mapping() {
    assert_eq!(map_button(MouseKey::Left), PointerButton::Left);
    assert_eq!(map_button(MouseKey::Right), PointerButton::Right);
    assert_eq!(map_button(MouseKey::Middle), PointerButton::Middle);
    assert_eq!(map_button(MouseKey::Back), PointerButton::Other(4));
    assert_eq!(map_button(MouseKey::Forward), PointerButton::Other(5));
    assert_eq!(map_button(MouseKey::Other(9)), PointerButton::Other(9));
}

#[test]
fn character_key_name() {
    let key = Keystroke::Character("a".into());
    assert_eq!(key_name(&key), "a");
}

#[test]
fn named_key_name() {
    let key = Keystroke::Named("Enter".into());
    assert_eq!(key_name(&key), "Enter");
}

#[test]
fn keys_without_a_name() {
    assert_eq!(key_name(&Keystroke::Dead(Some('^'))), "^");
    assert_eq!(key_name(&Keystroke::Dead(None)), "Dead");
    assert_eq!(key_name(&Keystroke::Unidentified), "Unidentified");
}

#[test]
fn cursor_move_updates_tracker_and_is_logical() {
    let mut cursor = (p(0.0), p(0.0));
    let event = WindowInput::CursorMoved { x: d(200.0), y: d(100.0) };
    let out = translate_window_event(&event, d(2.0), &mut cursor, &fl);
    assert_eq!(out, Some(InputEvent::PointerMoved { x: p(100.0), y: p(50.0) }));
    assert_eq!(cursor, (p(100.0), p(50.0)));
}

#[test]
fn mouse_press_uses_tracked_cursor() {
    let mut cursor = (p(12.0), p(34.0));
    let event = WindowInput::MouseInput { pressed: true, button: MouseKey::Left };
    let out = translate_window_event(&event, d(1.0), &mut cursor, &fl);
    assert_eq!(
        out,
        Some(InputEvent::PointerDown {
            x: p(12.0),
            y: p(34.0),
            button: PointerButton::Left
        })
    );
}

#[test]
fn line_scroll_converts_to_pixels() {
    let mut cursor = (p(0.0), p(0.0));
    let event = WindowInput::LineWheel { x: p(0.0), y: p(-2.0) };
    let out = translate_window_event(&event, d(1.0), &mut cursor, &fl);
    assert_eq!(
        out,
        Some(InputEvent::Scroll {
            dx: p(0.0),
            dy: p(-2.0 * v(SCROLL_LINE_HEIGHT))
        })
    );
}

#[test]
fn other_window_events_are_no_input() {
    let mut cursor = (p(1.0), p(2.0));
    assert_eq!(translate_window_event(&WindowInput::Other, d(1.0), &mut cursor, &fl), None);
    assert_eq!(cursor, (p(1.0), p(2.0)));
}

#[test]
fn channels_of_a_packed_color() {
    let c = Rgba::from_u32(0xFF000080, &fl);
    assert_eq!((v(c.r), v(c.g), v(c.b)), (1.0, 0.0, 0.0));
    assert_eq!(v(c.a), 128.0 / 255.0);
    let l = c.to_linear_array(&fl);
    assert_eq!((v(l[0]), v(l[1]), v(l[2])), (1.0, 0.0, 0.0));
    assert_eq!(v(Rgba::srgb_to_linear(p(0.04), &fl)), 0.04f32 / 12.92);
    assert_eq!(v(Rgba::srgb_to_linear(p(0.5), &fl)), ((0.5f32 + 0.055) / 1.055).powf(2.4));
    assert_eq!(c.to_f64_array(&fl).map(f64::from_bits), [1.0, 0.0, 0.0, (128.0f32 / 255.0) as f64]);
}

#[test]
fn errors_in_words() {
    assert_eq!(RenderError::SurfaceLost.to_text(), "render surface lost/outdated");
    assert_eq!(RenderError::OutOfMemory.to_text(), "render surface out of memory");
    assert_eq!(RenderError::Transient.to_text(), "transient frame error");
    assert_eq!(RenderError::Backend("x".into()).to_text(), "backend error: x");
}

#[test]
fn frost_splits_a_scene_into_passes() {
    let surface = Surface::new(200, 100, d(2.0), &fl);
    assert_eq!(v(surface.logical_width), 100.0);
    assert_eq!(surface.backdrop(), (100, 50));
    let scene = vec![
        DrawCmd::filled_rect(p(0.0), p(0.0), p(100.0), p(50.0), 0x102030FF, p(40.0)),
        DrawCmd::Text { x: p(3.0), y: p(4.0), content: "hi".into(), size: p(10.0), color: 0xFF8000FF },
        DrawCmd::FrostedRect {
            x: p(10.0),
            y: p(10.0),
            w: p(20.0),
            h: p(20.0),
            corner_radius: p(4.0),
            tint: 0xFFFFFF40,
            blur_radius: p(24.0),
        },
        DrawCmd::filled_shape(p(1.0), p(1.0), p(2.0), p(2.0), Shape::Circle, Fill::Solid(0xFF)),
    ];
    let passes = surface.passes(&scene, &fl);
    assert_eq!(passes.len(), 2);
    match passes[0].fills[0] {
        FillJob::Rect(r) => {
            assert_eq!(v(r.radius), 25.0);
            assert_eq!((v(r.max.0), v(r.max.1)), (100.0, 50.0));
        }
        _ => panic!("expected a rectangle"),
    }
    assert_eq!(passes[0].texts[0].content, "hi");
    assert_eq!(v(passes[0].texts[0].left), 6.0);
    assert_eq!(v(passes[0].texts[0].line_height), 10.0f32 * 1.2);
    assert_eq!(passes[0].texts[0].color, (255, 128, 0, 255));
    let frost = passes[0].frost.unwrap();
    assert_eq!((v(frost.min.0), v(frost.max.0)), (20.0, 60.0));
    assert_eq!(v(frost.corner_radius), 8.0);
    assert_eq!(v(frost.sigma), 4.0);
    assert_eq!(frost.taps, 12);
    assert_eq!((v(frost.texel.0), v(frost.texel.1)), (1.0 / 100.0, 1.0 / 50.0));
    assert_eq!(passes[1].fills, vec![FillJob::Shape(3)]);
    assert!(passes[1].frost.is_none());
    let clear = surface.clear_color(&scene, &fl).unwrap();
    assert_eq!(v(clear.3), 1.0);
    assert_eq!(surface.clear_color(&vec![], &fl), None);
}

#[test]
fn projection_maps_the_corners() {
    let m = Surface::new(200, 100, d(1.0), &fl).projection(&fl).map(v);
    assert_eq!(m, [0.01, 0.0, 0.0, 0.0, 0.0, -0.02, 0.0, 0.0, 0.0, 0.0, 1.0, 0.0, -1.0, 1.0, 0.0, 1.0]);
}

#[test]
fn surface_choices() {
    assert!(wants_high_power(Some("high")));
    assert!(!wants_high_power(Some("low")));
    assert!(!wants_high_power(None));
    assert_eq!(pick_format(&[false, true, true]), 1);
    assert_eq!(pick_format(&[false, false]), 0);
    assert!(matches!(frame_error(SurfaceFailure::Lost), RenderError::SurfaceLost));
    assert!(matches!(frame_error(SurfaceFailure::Outdated), RenderError::SurfaceLost));
    assert!(matches!(frame_error(SurfaceFailure::OutOfMemory), RenderError::OutOfMemory));
    assert!(matches!(frame_error(SurfaceFailure::Timeout), RenderError::Transient));
}

fn stored_rows(file: &[u8]) -> Vec<u8> {
    let mut at = 43;
    let mut out = vec![];
    loop {
        let n = u16::from_le_bytes([file[at + 1], file[at + 2]]) as usize;
        out.extend_from_slice(&file[at + 5..at + 5 + n]);
        if file[at] == 1 {
            return out;
        }
        at += 5 + n;
    }
}

#[test]
fn pictures_of_every_size_read_back() {
    for (width, height) in [(0u32, 0u32), (0, 3), (2, 0), (2, 3), (200, 90)] {
        let stride = width as usize * 4;
        let pixels: Vec<u8> = (0..stride * height as usize).map(|i| (i * 7 % 251) as u8).collect();
        let mut rows = vec![];
        for y in 0..height as usize {
            rows.push(0);
            rows.extend_from_slice(&pixels[y * stride..(y + 1) * stride]);
        }
        assert_eq!(stored_rows(&encode_rgba(width, height, &pixels)), rows, "{width} x {height}");
    }
}
