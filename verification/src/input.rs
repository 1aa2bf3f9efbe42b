//! Input events in logical pixels, and how the events of a window become them.
use vstd::prelude::*;

use crate::float::{div32, eq32, equal_single, mul32, narrow, narrow32, product, ratio, steady, unit, FloatOp, Unit};
use crate::text::{copy, same};

verus! {

/// A button of a pointer.
#[derive(Debug, Clone, Copy, PartialEq, Eq, Hash, Structural)]
pub enum PointerButton {
    Left,
    Right,
    Middle,
    /// Any other button, by its code.
    Other(u16),
}

/// One thing that the user did. Numbers are singles by their bits.
#[derive(Debug)]
pub enum InputEvent {
    PointerMoved { x: u32, y: u32 },
    PointerDown { x: u32, y: u32, button: PointerButton },
    PointerUp { x: u32, y: u32, button: PointerButton },
    Scroll { dx: u32, dy: u32 },
    KeyDown { key: String },
    KeyUp { key: String },
    /// A step of a pinch: by how much the magnification changed.
    Pinch { delta: u32 },
    /// A step of a rotation, in radians.
    Rotate { delta: u32 },
}

/// An [`InputEvent`] as mathematics.
pub enum InputModel {
    PointerMoved { x: u32, y: u32 },
    PointerDown { x: u32, y: u32, button: PointerButton },
    PointerUp { x: u32, y: u32, button: PointerButton },
    Scroll { dx: u32, dy: u32 },
    KeyDown { key: Seq<char> },
    KeyUp { key: Seq<char> },
    Pinch { delta: u32 },
    Rotate { delta: u32 },
}

impl View for InputEvent {
    type V = InputModel;

    open spec fn view(&self) -> InputModel {
        match *self {
            InputEvent::PointerMoved { x, y } => InputModel::PointerMoved { x, y },
            InputEvent::PointerDown { x, y, button } => InputModel::PointerDown { x, y, button },
            InputEvent::PointerUp { x, y, button } => InputModel::PointerUp { x, y, button },
            InputEvent::Scroll { dx, dy } => InputModel::Scroll { dx, dy },
            InputEvent::KeyDown { key } => InputModel::KeyDown { key: key@ },
            InputEvent::KeyUp { key } => InputModel::KeyUp { key: key@ },
            InputEvent::Pinch { delta } => InputModel::Pinch { delta },
            InputEvent::Rotate { delta } => InputModel::Rotate { delta },
        }
    }
}

/// The same event with equal parts.
pub open spec fn input_same(a: InputModel, b: InputModel) -> bool {
    match (a, b) {
        (InputModel::PointerMoved { x: p, y: q }, InputModel::PointerMoved { x: r, y: s })
            => eq32(p, r) && eq32(q, s),
        (
            InputModel::PointerDown { x: p, y: q, button: m },
            InputModel::PointerDown { x: r, y: s, button: n },
        ) => eq32(p, r) && eq32(q, s) && m == n,
        (
            InputModel::PointerUp { x: p, y: q, button: m },
            InputModel::PointerUp { x: r, y: s, button: n },
        ) => eq32(p, r) && eq32(q, s) && m == n,
        (InputModel::Scroll { dx: p, dy: q }, InputModel::Scroll { dx: r, dy: s }) => eq32(p, r)
            && eq32(q, s),
        (InputModel::KeyDown { key: j }, InputModel::KeyDown { key: k }) => j == k,
        (InputModel::KeyUp { key: j }, InputModel::KeyUp { key: k }) => j == k,
        (InputModel::Pinch { delta: p }, InputModel::Pinch { delta: q }) => eq32(p, q),
        (InputModel::Rotate { delta: p }, InputModel::Rotate { delta: q }) => eq32(p, q),
        _ => false,
    }
}

impl PartialEq for InputEvent {
    fn eq(&self, other: &InputEvent) -> (res: bool) {
        match (self, other) {
            (InputEvent::PointerMoved { x: p, y: q }, InputEvent::PointerMoved { x: r, y: s })
                => equal_single(*p, *r) && equal_single(*q, *s),
            (
                InputEvent::PointerDown { x: p, y: q, button: m },
                InputEvent::PointerDown { x: r, y: s, button: n },
            ) => equal_single(*p, *r) && equal_single(*q, *s) && *m == *n,
            (
                InputEvent::PointerUp { x: p, y: q, button: m },
                InputEvent::PointerUp { x: r, y: s, button: n },
            ) => equal_single(*p, *r) && equal_single(*q, *s) && *m == *n,
            (InputEvent::Scroll { dx: p, dy: q }, InputEvent::Scroll { dx: r, dy: s })
                => equal_single(*p, *r) && equal_single(*q, *s),
            (InputEvent::KeyDown { key: j }, InputEvent::KeyDown { key: k }) => same(
                j.as_str(),
                k.as_str(),
            ),
            (InputEvent::KeyUp { key: j }, InputEvent::KeyUp { key: k }) => same(
                j.as_str(),
                k.as_str(),
            ),
            (InputEvent::Pinch { delta: p }, InputEvent::Pinch { delta: q }) => equal_single(*p, *q),
            (InputEvent::Rotate { delta: p }, InputEvent::Rotate { delta: q }) => equal_single(*p, *q),
            _ => false,
        }
    }
}

impl vstd::std_specs::cmp::PartialEqSpecImpl for InputEvent {
    open spec fn obeys_eq_spec() -> bool {
        true
    }

    open spec fn eq_spec(&self, other: &InputEvent) -> bool {
        input_same(self@, other@)
    }
}

impl Clone for InputEvent {
    fn clone(&self) -> (r: InputEvent)
        ensures
            r@ == self@,
    {
        match self {
            InputEvent::PointerMoved { x, y } => InputEvent::PointerMoved { x: *x, y: *y },
            InputEvent::PointerDown { x, y, button } => InputEvent::PointerDown {
                x: *x,
                y: *y,
                button: *button,
            },
            InputEvent::PointerUp { x, y, button } => InputEvent::PointerUp {
                x: *x,
                y: *y,
                button: *button,
            },
            InputEvent::Scroll { dx, dy } => InputEvent::Scroll { dx: *dx, dy: *dy },
            InputEvent::KeyDown { key } => InputEvent::KeyDown { key: copy(key.as_str()) },
            InputEvent::KeyUp { key } => InputEvent::KeyUp { key: copy(key.as_str()) },
            InputEvent::Pinch { delta } => InputEvent::Pinch { delta: *delta },
            InputEvent::Rotate { delta } => InputEvent::Rotate { delta: *delta },
        }
    }
}

/// A button as a window reports it.
#[derive(Debug, Clone, Copy, PartialEq, Eq, Structural)]
pub enum MouseKey {
    Left,
    Right,
    Middle,
    Back,
    Forward,
    Other(u16),
}

/// A key as a window reports it.
#[derive(Debug)]
pub enum Keystroke {
    /// The text that the key types.
    Character(String),
    /// A key with a name.
    Named(String),
    /// A dead key, with the character that it adds where that is known.
    Dead(Option<char>),
    Unidentified,
}

/// An event as a window reports it: positions are doubles in physical pixels.
#[derive(Debug)]
#[allow(inconsistent_fields)]
pub enum WindowInput {
    CursorMoved { x: u64, y: u64 },
    MouseInput { pressed: bool, button: MouseKey },
    /// A wheel that turns by lines.
    LineWheel { x: u32, y: u32 },
    /// A wheel or pad that scrolls by physical pixels.
    PixelWheel { x: u64, y: u64 },
    Keyboard { pressed: bool, key: Keystroke },
    /// Anything else.
    Other,
}

/// The height of a line for wheels that turn by lines, 16.
pub const SCROLL_LINE_HEIGHT: u32 = 0x4180_0000;

/// The button that a window's button is. The thumb buttons keep the codes four and five.
pub open spec fn button_of(b: MouseKey) -> PointerButton {
    match b {
        MouseKey::Left => PointerButton::Left,
        MouseKey::Right => PointerButton::Right,
        MouseKey::Middle => PointerButton::Middle,
        MouseKey::Back => PointerButton::Other(4),
        MouseKey::Forward => PointerButton::Other(5),
        MouseKey::Other(code) => PointerButton::Other(code),
    }
}

/// The button that a window's button is.
pub fn map_button(b: MouseKey) -> (r: PointerButton)
    ensures
        r == button_of(b),
{
    match b {
        MouseKey::Left => PointerButton::Left,
        MouseKey::Right => PointerButton::Right,
        MouseKey::Middle => PointerButton::Middle,
        MouseKey::Back => PointerButton::Other(4),
        MouseKey::Forward => PointerButton::Other(5),
        MouseKey::Other(code) => PointerButton::Other(code),
    }
}

/// The name of a key: what it types, its own name, or a word for what has neither.
pub open spec fn key_text(k: Keystroke) -> Seq<char> {
    match k {
        Keystroke::Character(s) => s@,
        Keystroke::Named(s) => s@,
        Keystroke::Dead(Some(c)) => seq![c],
        Keystroke::Dead(None) => "Dead"@,
        Keystroke::Unidentified => "Unidentified"@,
    }
}

/// The name of a key.
pub fn key_name(k: &Keystroke) -> (r: String)
    ensures
        r@ == key_text(*k),
{
    match k {
        Keystroke::Character(s) => copy(s.as_str()),
        Keystroke::Named(s) => copy(s.as_str()),
        Keystroke::Dead(Some(c)) => {
            let mut r = String::new();
            r.push(*c);
            assert(r@ =~= seq![*c]);
            r
        },
        Keystroke::Dead(None) => copy("Dead"),
        Keystroke::Unidentified => copy("Unidentified"),
    }
}

/// A physical length as a logical one.
pub open spec fn logical(fl: Unit, physical: u64, scale_factor: u64) -> u32 {
    div32(fl, narrow32(fl, physical), narrow32(fl, scale_factor))
}

/// What an event of a window means, with the pointer at `cursor`; nothing where it is no input.
pub open spec fn translated(fl: Unit, e: WindowInput, scale_factor: u64, cursor: (u32, u32)) -> Option<
    InputModel,
> {
    match e {
        WindowInput::CursorMoved { x, y } => Some(
            InputModel::PointerMoved {
                x: logical(fl, x, scale_factor),
                y: logical(fl, y, scale_factor),
            },
        ),
        WindowInput::MouseInput { pressed, button } => Some(
            if pressed {
                InputModel::PointerDown { x: cursor.0, y: cursor.1, button: button_of(button) }
            } else {
                InputModel::PointerUp { x: cursor.0, y: cursor.1, button: button_of(button) }
            },
        ),
        WindowInput::LineWheel { x, y } => Some(
            InputModel::Scroll {
                dx: mul32(fl, x, SCROLL_LINE_HEIGHT),
                dy: mul32(fl, y, SCROLL_LINE_HEIGHT),
            },
        ),
        WindowInput::PixelWheel { x, y } => Some(
            InputModel::Scroll {
                dx: logical(fl, x, scale_factor),
                dy: logical(fl, y, scale_factor),
            },
        ),
        WindowInput::Keyboard { pressed, key } => Some(
            if pressed {
                InputModel::KeyDown { key: key_text(key) }
            } else {
                InputModel::KeyUp { key: key_text(key) }
            },
        ),
        WindowInput::Other => None,
    }
}

/// Where the pointer is after an event of a window.
pub open spec fn cursor_after(fl: Unit, e: WindowInput, scale_factor: u64, cursor: (u32, u32)) -> (u32, u32) {
    match e {
        WindowInput::CursorMoved { x, y } => (
            logical(fl, x, scale_factor),
            logical(fl, y, scale_factor),
        ),
        _ => cursor,
    }
}

fn to_logical<F: Fn(&FloatOp) -> Option<u64>>(physical: u64, scale_factor: u64, fl: &F) -> (r: u32)
    requires
        steady(*fl),
    ensures
        r == logical(unit(*fl), physical, scale_factor),
{
    ratio(fl, narrow(fl, physical), narrow(fl, scale_factor))
}

/// What an event of a window means. A movement sets `cursor`, and a button is pressed or released
/// where it is.
pub fn translate_window_event<F: Fn(&FloatOp) -> Option<u64>>(
    event: &WindowInput,
    scale_factor: u64,
    cursor: &mut (u32, u32),
    fl: &F,
) -> (r: Option<InputEvent>)
    requires
        steady(*fl),
    ensures
        match r {
            Some(e) => translated(unit(*fl), *event, scale_factor, *old(cursor)) == Some(e@),
            None => translated(unit(*fl), *event, scale_factor, *old(cursor)) is None,
        },
        *final(cursor) == cursor_after(unit(*fl), *event, scale_factor, *old(cursor)),
{
    match event {
        WindowInput::CursorMoved { x, y } => {
            let px: u32 = to_logical(*x, scale_factor, fl);
            let py: u32 = to_logical(*y, scale_factor, fl);
            *cursor = (px, py);
            Some(InputEvent::PointerMoved { x: px, y: py })
        },
        WindowInput::MouseInput { pressed, button } => {
            let (x, y) = *cursor;
            let b = map_button(*button);
            if *pressed {
                Some(InputEvent::PointerDown { x, y, button: b })
            } else {
                Some(InputEvent::PointerUp { x, y, button: b })
            }
        },
        WindowInput::LineWheel { x, y } => Some(
            InputEvent::Scroll {
                dx: product(fl, *x, SCROLL_LINE_HEIGHT),
                dy: product(fl, *y, SCROLL_LINE_HEIGHT),
            },
        ),
        WindowInput::PixelWheel { x, y } => Some(
            InputEvent::Scroll {
                dx: to_logical(*x, scale_factor, fl),
                dy: to_logical(*y, scale_factor, fl),
            },
        ),
        WindowInput::Keyboard { pressed, key } => {
            let k = key_name(key);
            if *pressed {
                Some(InputEvent::KeyDown { key: k })
            } else {
                Some(InputEvent::KeyUp { key: k })
            }
        },
        WindowInput::Other => None,
    }
}

} // verus!
