//! The environment that adaptive decisions read: the size of the window, densities, input, build
//! and surface. Sizes are singles in logical pixels, by their bits.
use vstd::prelude::*;

use crate::float::{bits, less_single, low_half, lt32, single, steady, unit, FloatOp, FloatQuery, Unit};

verus! {

/// How wide a window is.
#[derive(Debug, Clone, Copy, PartialEq, Eq, Hash, Structural)]
pub enum WidthClass {
    /// Less than 600.
    Compact,
    /// At least 600 and less than 840.
    Medium,
    /// At least 840.
    Expanded,
}

/// How high a window is.
#[derive(Debug, Clone, Copy, PartialEq, Eq, Hash, Structural)]
pub enum HeightClass {
    /// Less than 480.
    Short,
    /// At least 480.
    Tall,
}

/// How the user points at the interface.
#[derive(Debug, Clone, Copy, PartialEq, Eq, Hash, Structural)]
pub enum InputMode {
    Touch,
    Pointer,
    Remote,
}

/// Which build of the product this is.
#[derive(Debug, Clone, Copy, PartialEq, Eq, Hash, Structural)]
pub enum BuildVariant {
    Internal,
    Public,
}

/// What the interface is shown on.
#[derive(Debug, Clone, Copy, PartialEq, Eq, Hash, Structural)]
pub enum SurfaceKind {
    Desktop,
    Phone,
    Tablet,
    Embedded,
    Shell,
    Dashboard,
    Web,
}

/// 600.
pub const BREAKPOINT_COMPACT: u32 = 0x4416_0000;

/// 840.
pub const BREAKPOINT_MEDIUM: u32 = 0x4452_0000;

/// 1200.
pub const BREAKPOINT_LARGE: u32 = 0x4496_0000;

/// 480.
pub const BREAKPOINT_TALL: u32 = 0x43F0_0000;

/// The accent of internal builds: violet.
pub const ACCENT_INTERNAL: u32 = 0x7D39_EBFF;

/// The accent of public builds: lime.
pub const ACCENT_PUBLIC: u32 = 0xC6FF_33FF;

/// One.
pub const UNSCALED: u32 = 0x3F80_0000;

/// One hundred.
pub const HUNDRED: u32 = 0x42C8_0000;

/// Everything an adaptive decision needs.
#[derive(Debug, Clone, Copy, PartialEq)]
pub struct Env {
    /// Width of the window.
    pub win_w: u32,
    /// Height of the window.
    pub win_h: u32,
    /// How closely things are packed; one is the default.
    pub density: u32,
    /// How large text is; one is the default.
    pub text_scale: u32,
    pub input_mode: InputMode,
    pub build_variant: BuildVariant,
    pub surface_kind: SurfaceKind,
}

/// The class of a width. A width that is not a number belongs to the last.
pub open spec fn class_of_width(w: u32) -> WidthClass {
    if lt32(w, BREAKPOINT_COMPACT) {
        WidthClass::Compact
    } else if lt32(w, BREAKPOINT_MEDIUM) {
        WidthClass::Medium
    } else {
        WidthClass::Expanded
    }
}

/// A part of a length in hundredths.
pub open spec fn hundredths(of: u32, f: u32, fl: Unit) -> u32 {
    let product = low_half(bits(fl(FloatQuery::MulSingle { x: of, y: f })));
    low_half(bits(fl(FloatQuery::DivSingle { x: product, y: HUNDRED })))
}

fn width_class_of(w: u32) -> (r: WidthClass)
    ensures
        r == class_of_width(w),
{
    if less_single(w, BREAKPOINT_COMPACT) {
        WidthClass::Compact
    } else if less_single(w, BREAKPOINT_MEDIUM) {
        WidthClass::Medium
    } else {
        WidthClass::Expanded
    }
}

fn part_of<F: Fn(&FloatOp) -> Option<u64>>(of: u32, f: u32, fl: &F) -> (r: u32)
    requires
        steady(*fl),
    ensures
        r == hundredths(of, f, unit(*fl)),
{
    let product: u32 = single(fl, &FloatOp::MulSingle { x: of, y: f });
    single(fl, &FloatOp::DivSingle { x: product, y: HUNDRED })
}

/// The environment of a window of the given size.
pub open spec fn window_env(w: u32, h: u32) -> Env {
    Env {
        win_w: w,
        win_h: h,
        density: UNSCALED,
        text_scale: UNSCALED,
        input_mode: InputMode::Pointer,
        build_variant: BuildVariant::Public,
        surface_kind: match class_of_width(w) {
            WidthClass::Compact => SurfaceKind::Phone,
            WidthClass::Medium => SurfaceKind::Tablet,
            WidthClass::Expanded => SurfaceKind::Desktop,
        },
    }
}

impl Env {
    /// The environment of a window of the given size, with every default: a pointer, a public
    /// build, and the surface that goes with the width.
    pub fn for_window(w: u32, h: u32) -> (r: Env)
        ensures
            r == window_env(w, h),
    {
        let surface_kind = match width_class_of(w) {
            WidthClass::Compact => SurfaceKind::Phone,
            WidthClass::Medium => SurfaceKind::Tablet,
            WidthClass::Expanded => SurfaceKind::Desktop,
        };
        Env {
            win_w: w,
            win_h: h,
            density: UNSCALED,
            text_scale: UNSCALED,
            input_mode: InputMode::Pointer,
            build_variant: BuildVariant::Public,
            surface_kind,
        }
    }

    /// The class of the window's width.
    pub fn width_class(&self) -> (r: WidthClass)
        ensures
            r == class_of_width(self.win_w),
    {
        width_class_of(self.win_w)
    }

    /// The class of the window's height.
    pub fn height_class(&self) -> (r: HeightClass)
        ensures
            r == if lt32(self.win_h, BREAKPOINT_TALL) {
                HeightClass::Short
            } else {
                HeightClass::Tall
            },
    {
        if less_single(self.win_h, BREAKPOINT_TALL) {
            HeightClass::Short
        } else {
            HeightClass::Tall
        }
    }

    /// `true` exactly when input is by touch.
    pub fn is_touch(&self) -> (r: bool)
        ensures
            r == (self.input_mode == InputMode::Touch),
    {
        self.input_mode == InputMode::Touch
    }

    /// The accent of the build, as `0xRRGGBBAA`.
    pub fn accent(&self) -> (r: u32)
        ensures
            r == match self.build_variant {
                BuildVariant::Internal => ACCENT_INTERNAL,
                BuildVariant::Public => ACCENT_PUBLIC,
            },
    {
        match self.build_variant {
            BuildVariant::Internal => ACCENT_INTERNAL,
            BuildVariant::Public => ACCENT_PUBLIC,
        }
    }

    /// `f` hundredths of the window's width.
    pub fn vw<F: Fn(&FloatOp) -> Option<u64>>(&self, f: u32, fl: &F) -> (r: u32)
        requires
            steady(*fl),
        ensures
            r == hundredths(self.win_w, f, unit(*fl)),
    {
        part_of(self.win_w, f, fl)
    }

    /// `f` hundredths of the window's height.
    pub fn vh<F: Fn(&FloatOp) -> Option<u64>>(&self, f: u32, fl: &F) -> (r: u32)
        requires
            steady(*fl),
        ensures
            r == hundredths(self.win_h, f, unit(*fl)),
    {
        part_of(self.win_h, f, fl)
    }
}

} // verus!
