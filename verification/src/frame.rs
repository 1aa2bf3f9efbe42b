//! The plan of a frame for a graphics processor: what is cleared, what is filled and written in
//! which pass, and where the backdrop is blurred for a frosted panel. A panel frosts
//! what was painted before it and nothing after.
use vstd::prelude::*;

use crate::blur::{sigma, sigma_for_radius, taps, taps_for_sigma, TWO};
use crate::color::{linear, unpacked, Rgba};
use crate::float::{
    add32, at_most_single, div32, greater_of, int32, le32, lesser_of, max32, min32, mul32,
    narrow, narrow32, of_int, product, ratio, steady, sum, to_u32_single, truncated32, unit, FloatOp, Unit,
};
use crate::renderer::RenderError;
use crate::scene::{cmd_models, CmdModel, DrawCmd, Scene, BRIGHTEST};
use crate::text::{copy, same};

verus! {

/// By how much a backdrop is scaled down on each axis before it is blurred.
pub const BLUR_DOWNSAMPLE: u32 = 2;

/// The height of a line of text by its size, 1.2.
pub const LINE_HEIGHT: u32 = 0x3F99_999A;

/// How strong the light inner edge of a panel is, 0.12.
pub const EDGE: u32 = 0x3DF5_C28F;

/// One.
pub const ONE: u32 = 0x3F80_0000;

/// Minus one.
pub const MINUS_ONE: u32 = 0xBF80_0000;

/// Minus two.
pub const MINUS_TWO: u32 = 0xC000_0000;

/// The surface that a frame is for: its size in pixels, its size in logical pixels, and the
/// scale from those to these.
#[derive(Debug, Clone, Copy, PartialEq, Eq, Structural)]
pub struct Surface {
    pub width: u32,
    pub height: u32,
    pub logical_width: u32,
    pub logical_height: u32,
    pub scale: u32,
}

/// At least one pixel.
pub open spec fn at_least_one(n: u32) -> u32 {
    if n < 1 {
        1
    } else {
        n
    }
}

/// A surface of the given size at a scale.
pub open spec fn surface_of(fl: Unit, width: u32, height: u32, scale_factor: u64) -> Surface {
    let scale = narrow32(fl, scale_factor);
    let w = at_least_one(width);
    let h = at_least_one(height);
    Surface {
        width: w,
        height: h,
        logical_width: div32(fl, int32(fl, w as i64), scale),
        logical_height: div32(fl, int32(fl, h as i64), scale),
        scale,
    }
}

/// The size of the blurred backdrop of a surface.
pub open spec fn backdrop_of(s: Surface) -> (u32, u32) {
    (at_least_one(s.width / BLUR_DOWNSAMPLE), at_least_one(s.height / BLUR_DOWNSAMPLE))
}

/// A rectangle to fill: its corners, the radius of its rounding, its rotation, and its colour in
/// linear light.
#[derive(Debug, Clone, Copy, PartialEq, Eq)]
pub struct RectJob {
    pub min: (u32, u32),
    pub max: (u32, u32),
    pub radius: u32,
    pub rotation: u32,
    pub color: (u32, u32, u32, u32),
}

/// Something to fill: a rectangle, or the shape or the path of the command at a place of the
/// scene.
#[derive(Debug, Clone, Copy, PartialEq, Eq)]
pub enum FillJob {
    Rect(RectJob),
    Shape(usize),
    Path(usize),
}

/// A run of text to draw: its place in pixels, its size and line height, and its colour by
/// bytes.
#[derive(Debug)]
pub struct TextJob {
    pub content: String,
    pub left: u32,
    pub top: u32,
    pub size: u32,
    pub line_height: u32,
    pub color: (u32, u32, u32, u32),
}

/// A [`TextJob`] as mathematics.
#[verifier::ext_equal]
pub struct TextJobModel {
    pub content: Seq<char>,
    pub left: u32,
    pub top: u32,
    pub size: u32,
    pub line_height: u32,
    pub color: (u32, u32, u32, u32),
}

impl View for TextJob {
    type V = TextJobModel;

    open spec fn view(&self) -> TextJobModel {
        TextJobModel {
            content: self.content@,
            left: self.left,
            top: self.top,
            size: self.size,
            line_height: self.line_height,
            color: self.color,
        }
    }
}

/// A frosted panel to lay over its blurred backdrop, in pixels.
#[derive(Debug, Clone, Copy, PartialEq, Eq)]
pub struct FrostJob {
    pub min: (u32, u32),
    pub max: (u32, u32),
    pub resolution: (u32, u32),
    pub backdrop: (u32, u32),
    pub tint: (u32, u32, u32, u32),
    pub corner_radius: u32,
    pub edge: u32,
    /// The size of a pixel of the backdrop.
    pub texel: (u32, u32),
    /// The deviation of the blur.
    pub sigma: u32,
    /// How many taps the blur has on each side.
    pub taps: i32,
}

/// One pass: what is drawn, and the panel that ends it.
#[derive(Debug)]
pub struct Pass {
    pub fills: Vec<FillJob>,
    pub texts: Vec<TextJob>,
    pub frost: Option<FrostJob>,
}

/// A [`Pass`] as mathematics.
#[verifier::ext_equal]
pub struct PassModel {
    pub fills: Seq<FillJob>,
    pub texts: Seq<TextJobModel>,
    pub frost: Option<FrostJob>,
}

/// The models of a row of texts.
pub open spec fn text_job_models(s: Seq<TextJob>) -> Seq<TextJobModel> {
    s.map_values(|t: TextJob| t@)
}

impl View for Pass {
    type V = PassModel;

    open spec fn view(&self) -> PassModel {
        PassModel { fills: self.fills@, texts: text_job_models(self.texts@), frost: self.frost }
    }
}

/// The models of a row of passes.
pub open spec fn pass_models(s: Seq<Pass>) -> Seq<PassModel> {
    s.map_values(|p: Pass| p@)
}

/// A packed colour in linear light.
pub open spec fn linear_color(fl: Unit, packed: u32) -> (u32, u32, u32, u32) {
    let c = unpacked(fl, packed);
    (linear(fl, c.r), linear(fl, c.g), linear(fl, c.b), c.a)
}

/// A packed colour by its bytes, each through its channel.
pub open spec fn byte_color(fl: Unit, packed: u32) -> (u32, u32, u32, u32) {
    let c = unpacked(fl, packed);
    (
        truncated32(fl, mul32(fl, c.r, BRIGHTEST), 0, 255) as u32,
        truncated32(fl, mul32(fl, c.g, BRIGHTEST), 0, 255) as u32,
        truncated32(fl, mul32(fl, c.b, BRIGHTEST), 0, 255) as u32,
        truncated32(fl, mul32(fl, c.a, BRIGHTEST), 0, 255) as u32,
    )
}

/// The rectangle that a command fills. One without an extent fills nothing; its rounding is at
/// most half of its shorter side.
pub open spec fn rect_job(fl: Unit, c: CmdModel) -> Option<RectJob> {
    match c {
        CmdModel::FilledRect { x, y, w, h, color, corner_radius, rotation } => if le32(w, 0) || le32(h, 0) {
            None
        } else {
            Some(
                RectJob {
                    min: (x, y),
                    max: (add32(fl, x, w), add32(fl, y, h)),
                    radius: min32(max32(corner_radius, 0), div32(fl, min32(w, h), TWO)),
                    rotation,
                    color: linear_color(fl, color),
                },
            )
        },
        _ => None,
    }
}

/// The text that a command draws.
pub open spec fn text_job(fl: Unit, s: Surface, c: CmdModel) -> Option<TextJobModel> {
    match c {
        CmdModel::Text { x, y, content, size, color } => Some(
            TextJobModel {
                content,
                left: mul32(fl, x, s.scale),
                top: mul32(fl, y, s.scale),
                size,
                line_height: mul32(fl, size, LINE_HEIGHT),
                color: byte_color(fl, color),
            },
        ),
        _ => None,
    }
}

/// The panel that a command lays. One without an extent is left out.
pub open spec fn frost_job(fl: Unit, s: Surface, c: CmdModel) -> Option<FrostJob> {
    match c {
        CmdModel::FrostedRect { x, y, w, h, corner_radius, tint, blur_radius } => if le32(w, 0) || le32(h, 0) {
            None
        } else {
            let (px, py) = (mul32(fl, x, s.scale), mul32(fl, y, s.scale));
            let (pw, ph) = (mul32(fl, w, s.scale), mul32(fl, h, s.scale));
            let (bw, bh) = backdrop_of(s);
            let deviation = sigma(fl, div32(fl, blur_radius, int32(fl, BLUR_DOWNSAMPLE as i64)));
            Some(
                FrostJob {
                    min: (px, py),
                    max: (add32(fl, px, pw), add32(fl, py, ph)),
                    resolution: (int32(fl, s.width as i64), int32(fl, s.height as i64)),
                    backdrop: (int32(fl, bw as i64), int32(fl, bh as i64)),
                    tint: linear_color(fl, tint),
                    corner_radius: min32(
                        mul32(fl, max32(corner_radius, 0), s.scale),
                        div32(fl, min32(pw, ph), TWO),
                    ),
                    edge: EDGE,
                    texel: (
                        div32(fl, ONE, int32(fl, bw as i64)),
                        div32(fl, ONE, int32(fl, bh as i64)),
                    ),
                    sigma: deviation,
                    taps: taps(fl, deviation) as i32,
                },
            )
        },
        _ => None,
    }
}

/// What a command at place `i` fills. A shape without an extent fills nothing.
pub open spec fn fill_job(fl: Unit, c: CmdModel, i: usize) -> Option<FillJob> {
    match c {
        CmdModel::FilledRect { .. } => match rect_job(fl, c) {
            Some(j) => Some(FillJob::Rect(j)),
            None => None,
        },
        CmdModel::FilledShape { w, h, .. } => if le32(w, 0) || le32(h, 0) {
            None
        } else {
            Some(FillJob::Shape(i))
        },
        CmdModel::Path { .. } => Some(FillJob::Path(i)),
        _ => None,
    }
}

/// What the commands from `from` to `to` fill.
pub open spec fn fill_jobs(fl: Unit, cmds: Seq<CmdModel>, from: int, to: int) -> Seq<FillJob>
    decreases to - from,
{
    if to <= from {
        Seq::empty()
    } else {
        let rest = fill_jobs(fl, cmds, from, to - 1);
        match fill_job(fl, cmds[to - 1], (to - 1) as usize) {
            Some(j) => rest.push(j),
            None => rest,
        }
    }
}

/// The texts that the commands from `from` to `to` draw.
pub open spec fn text_jobs(fl: Unit, s: Surface, cmds: Seq<CmdModel>, from: int, to: int) -> Seq<TextJobModel>
    decreases to - from,
{
    if to <= from {
        Seq::empty()
    } else {
        let rest = text_jobs(fl, s, cmds, from, to - 1);
        match text_job(fl, s, cmds[to - 1]) {
            Some(j) => rest.push(j),
            None => rest,
        }
    }
}

/// Where the next frosted panel is, or the end.
pub open spec fn next_panel(cmds: Seq<CmdModel>, i: int) -> int
    decreases cmds.len() - i,
{
    if i >= cmds.len() {
        cmds.len() as int
    } else if cmds[i] is FrostedRect {
        i
    } else {
        next_panel(cmds, i + 1)
    }
}

/// The pass of the commands from `from` up to the panel at `to`, or the end.
pub open spec fn pass_of(fl: Unit, s: Surface, cmds: Seq<CmdModel>, from: int, to: int) -> PassModel {
    PassModel {
        fills: fill_jobs(fl, cmds, from, to),
        texts: text_jobs(fl, s, cmds, from, to),
        frost: if to < cmds.len() {
            frost_job(fl, s, cmds[to])
        } else {
            None
        },
    }
}

/// The passes of the commands from `i` on: one up to each panel, and one for the rest.
pub open spec fn passes_from(fl: Unit, s: Surface, cmds: Seq<CmdModel>, i: int) -> Seq<PassModel>
    decreases cmds.len() - i,
{
    let j = next_panel(cmds, i);
    if i >= 0 && i <= j < cmds.len() {
        seq![pass_of(fl, s, cmds, i, j)] + passes_from(fl, s, cmds, j + 1)
    } else {
        seq![pass_of(fl, s, cmds, i, cmds.len() as int)]
    }
}

/// The command fills the whole surface.
pub open spec fn covers(s: Surface, c: CmdModel) -> bool {
    match c {
        CmdModel::FilledRect { x, y, w, h, .. } => le32(x, 0) && le32(y, 0) && le32(s.logical_width, w) && le32(
            s.logical_height,
            h,
        ),
        _ => false,
    }
}

/// What the surface is cleared to: the colour of the first command from `i` on that fills it
/// whole, in linear light; nothing where there is none.
pub open spec fn clear_from(fl: Unit, s: Surface, cmds: Seq<CmdModel>, i: int) -> Option<(u32, u32, u32, u32)>
    decreases cmds.len() - i,
{
    if i < 0 || i >= cmds.len() {
        None
    } else if covers(s, cmds[i]) {
        Some(linear_color(fl, cmds[i]->FilledRect_color))
    } else {
        clear_from(fl, s, cmds, i + 1)
    }
}

fn one_or_more(n: u32) -> (r: u32)
    ensures
        r == at_least_one(n),
{
    if n < 1 {
        1
    } else {
        n
    }
}

fn linear_of<F: Fn(&FloatOp) -> Option<u64>>(packed: u32, fl: &F) -> (r: (u32, u32, u32, u32))
    requires
        steady(*fl),
    ensures
        r == linear_color(unit(*fl), packed),
{
    let l = Rgba::from_u32(packed, fl).to_linear_array(fl);
    (l[0], l[1], l[2], l[3])
}

fn byte_of<F: Fn(&FloatOp) -> Option<u64>>(channel: u32, fl: &F) -> (r: u32)
    requires
        steady(*fl),
    ensures
        r == truncated32(unit(*fl), mul32(unit(*fl), channel, BRIGHTEST), 0, 255) as u32,
{
    let n: u32 = to_u32_single(fl, product(fl, channel, BRIGHTEST));
    if n > 255 {
        255
    } else {
        n
    }
}

impl Surface {
    /// A surface of the given size in pixels at a scale; a side without extent counts as one
    /// pixel.
    pub fn new<F: Fn(&FloatOp) -> Option<u64>>(width: u32, height: u32, scale_factor: u64, fl: &F) -> (r: Surface)
        requires
            steady(*fl),
        ensures
            r == surface_of(unit(*fl), width, height, scale_factor),
    {
        let scale: u32 = narrow(fl, scale_factor);
        let w: u32 = one_or_more(width);
        let h: u32 = one_or_more(height);
        Surface {
            width: w,
            height: h,
            logical_width: ratio(fl, of_int(fl, w as i64), scale),
            logical_height: ratio(fl, of_int(fl, h as i64), scale),
            scale,
        }
    }

    /// The size of the blurred backdrop.
    pub fn backdrop(&self) -> (r: (u32, u32))
        ensures
            r == backdrop_of(*self),
    {
        (one_or_more(self.width / BLUR_DOWNSAMPLE), one_or_more(self.height / BLUR_DOWNSAMPLE))
    }

    /// The projection from logical pixels, with the origin top left and `y` downwards, to clip
    /// space, column by column.
    pub fn projection<F: Fn(&FloatOp) -> Option<u64>>(&self, fl: &F) -> (r: [u32; 16])
        requires
            steady(*fl),
        ensures
            r@ == seq![
                div32(unit(*fl), TWO, max32(self.logical_width, ONE)), 0, 0, 0,
                0, div32(unit(*fl), MINUS_TWO, max32(self.logical_height, ONE)), 0, 0,
                0, 0, ONE, 0,
                MINUS_ONE, ONE, 0, ONE
            ],
    {
        let sx: u32 = ratio(fl, TWO, greater_of(self.logical_width, ONE));
        let sy: u32 = ratio(fl, MINUS_TWO, greater_of(self.logical_height, ONE));
        let r: [u32; 16] = [sx, 0, 0, 0, 0, sy, 0, 0, 0, 0, ONE, 0, MINUS_ONE, ONE, 0, ONE];
        assert(r@ =~= seq![
            div32(unit(*fl), TWO, max32(self.logical_width, ONE)), 0, 0, 0,
            0, div32(unit(*fl), MINUS_TWO, max32(self.logical_height, ONE)), 0, 0,
            0, 0, ONE, 0,
            MINUS_ONE, ONE, 0, ONE
        ]);
        r
    }

    fn covered_by(&self, c: &DrawCmd) -> (r: bool)
        ensures
            r == covers(*self, c@),
    {
        match c {
            DrawCmd::FilledRect { x, y, w, h, .. } => at_most_single(*x, 0) && at_most_single(*y, 0)
                && at_most_single(self.logical_width, *w) && at_most_single(self.logical_height, *h),
            _ => false,
        }
    }

    /// What the surface is cleared to before a scene is drawn: the colour of the first rectangle
    /// that fills it whole, in linear light.
    pub fn clear_color<F: Fn(&FloatOp) -> Option<u64>>(&self, scene: &Scene, fl: &F) -> (r: Option<(u32, u32, u32, u32)>)
        requires
            steady(*fl),
        ensures
            r == clear_from(unit(*fl), *self, cmd_models(scene@), 0),
    {
        let ghost cmds = cmd_models(scene@);
        let mut i: usize = 0;
        while i < scene.len()
            invariant
                steady(*fl),
                cmds == cmd_models(scene@),
                i <= scene@.len(),
                clear_from(unit(*fl), *self, cmds, 0) == clear_from(unit(*fl), *self, cmds, i as int),
            decreases scene.len() - i,
        {
            assert(cmds[i as int] == scene@[i as int]@);
            if self.covered_by(&scene[i]) {
                match &scene[i] {
                    DrawCmd::FilledRect { color, .. } => {
                        return Some(linear_of(*color, fl));
                    },
                    _ => {},
                }
            }
            i += 1;
        }
        None
    }

    /// The passes of a scene: what is drawn up to each frosted panel, with the panel, and what is
    /// drawn after the last.
    pub fn passes<F: Fn(&FloatOp) -> Option<u64>>(&self, scene: &Scene, fl: &F) -> (r: Vec<Pass>)
        requires
            steady(*fl),
        ensures
            pass_models(r@) == passes_from(unit(*fl), *self, cmd_models(scene@), 0),
    {
        let ghost cmds = cmd_models(scene@);
        let ghost u = unit(*fl);
        let ghost goal = passes_from(u, *self, cmds, 0);
        let mut out: Vec<Pass> = Vec::new();
        let mut fills: Vec<FillJob> = Vec::new();
        let mut texts: Vec<TextJob> = Vec::new();
        let ghost mut from: int = 0;
        let mut i: usize = 0;
        assert(pass_models(out@) + goal =~= goal);
        assert(text_job_models(texts@) =~= Seq::empty());
        while i < scene.len()
            invariant
                steady(*fl),
                u == unit(*fl),
                cmds == cmd_models(scene@),
                goal == passes_from(u, *self, cmds, 0),
                0 <= from <= i <= scene@.len(),
                next_panel(cmds, from) == next_panel(cmds, i as int),
                fills@ == fill_jobs(u, cmds, from, i as int),
                text_job_models(texts@) == text_jobs(u, *self, cmds, from, i as int),
                pass_models(out@) + passes_from(u, *self, cmds, from) == goal,
            decreases scene.len() - i,
        {
            assert(cmds[i as int] == scene@[i as int]@);
            let cmd = &scene[i];
            let panel = match cmd {
                DrawCmd::FrostedRect { .. } => true,
                _ => false,
            };
            if panel {
                let frost = self.frost(cmd, fl);
                let pass = Pass { fills, texts, frost };
                let ghost m = pass@;
                proof {
                    assert(m =~= pass_of(u, *self, cmds, from, i as int));
                }
                let ghost was = out@;
                out.push(pass);
                fills = Vec::new();
                texts = Vec::new();
                proof {
                    assert(pass_models(out@) =~= pass_models(was).push(m));
                    assert(text_job_models(texts@) =~= Seq::empty());
                    let rest = passes_from(u, *self, cmds, i + 1);
                    assert(passes_from(u, *self, cmds, from) == seq![m] + rest);
                    assert(pass_models(was) + (seq![m] + rest) =~= pass_models(out@) + rest);
                    from = i + 1;
                }
            } else {
                match self.fill(cmd, i, fl) {
                    Some(j) => {
                        fills.push(j);
                    },
                    None => {},
                }
                match self.text(cmd, fl) {
                    Some(j) => {
                        let ghost was = texts@;
                        let ghost m = j@;
                        texts.push(j);
                        assert(text_job_models(texts@) =~= text_job_models(was).push(m));
                    },
                    None => {},
                }
            }
            i += 1;
        }
        assert(cmds.len() == scene@.len());
        let pass = Pass { fills, texts, frost: None };
        let ghost m = pass@;
        assert(m =~= pass_of(u, *self, cmds, from, i as int));
        let ghost was = out@;
        out.push(pass);
        proof {
            assert(pass_models(out@) =~= pass_models(was).push(m));
            assert(passes_from(u, *self, cmds, from) =~= seq![m]);
            assert(pass_models(out@) =~= goal);
        }
        out
    }

    fn rect<F: Fn(&FloatOp) -> Option<u64>>(&self, c: &DrawCmd, fl: &F) -> (r: Option<RectJob>)
        requires
            steady(*fl),
        ensures
            r == rect_job(unit(*fl), c@),
    {
        match c {
            DrawCmd::FilledRect { x, y, w, h, color, corner_radius, rotation } => {
                if at_most_single(*w, 0) || at_most_single(*h, 0) {
                    return None;
                }
                Some(
                    RectJob {
                        min: (*x, *y),
                        max: (sum(fl, *x, *w), sum(fl, *y, *h)),
                        radius: lesser_of(greater_of(*corner_radius, 0), ratio(fl, lesser_of(*w, *h), TWO)),
                        rotation: *rotation,
                        color: linear_of(*color, fl),
                    },
                )
            },
            _ => None,
        }
    }

    fn fill<F: Fn(&FloatOp) -> Option<u64>>(&self, c: &DrawCmd, i: usize, fl: &F) -> (r: Option<FillJob>)
        requires
            steady(*fl),
        ensures
            r == fill_job(unit(*fl), c@, i),
    {
        match c {
            DrawCmd::FilledRect { .. } => match self.rect(c, fl) {
                Some(j) => Some(FillJob::Rect(j)),
                None => None,
            },
            DrawCmd::FilledShape { w, h, .. } => if at_most_single(*w, 0) || at_most_single(*h, 0) {
                None
            } else {
                Some(FillJob::Shape(i))
            },
            DrawCmd::Path { .. } => Some(FillJob::Path(i)),
            _ => None,
        }
    }

    fn text<F: Fn(&FloatOp) -> Option<u64>>(&self, c: &DrawCmd, fl: &F) -> (r: Option<TextJob>)
        requires
            steady(*fl),
        ensures
            match r {
                Some(j) => text_job(unit(*fl), *self, c@) == Some(j@),
                None => text_job(unit(*fl), *self, c@) is None,
            },
    {
        match c {
            DrawCmd::Text { x, y, content, size, color } => {
                let rgba = Rgba::from_u32(*color, fl);
                Some(
                    TextJob {
                        content: copy(content.as_str()),
                        left: product(fl, *x, self.scale),
                        top: product(fl, *y, self.scale),
                        size: *size,
                        line_height: product(fl, *size, LINE_HEIGHT),
                        color: (
                            byte_of(rgba.r, fl),
                            byte_of(rgba.g, fl),
                            byte_of(rgba.b, fl),
                            byte_of(rgba.a, fl),
                        ),
                    },
                )
            },
            _ => None,
        }
    }

    fn frost<F: Fn(&FloatOp) -> Option<u64>>(&self, c: &DrawCmd, fl: &F) -> (r: Option<FrostJob>)
        requires
            steady(*fl),
        ensures
            r == frost_job(unit(*fl), *self, c@),
    {
        match c {
            DrawCmd::FrostedRect { x, y, w, h, corner_radius, tint, blur_radius } => {
                if at_most_single(*w, 0) || at_most_single(*h, 0) {
                    return None;
                }
                let px: u32 = product(fl, *x, self.scale);
                let py: u32 = product(fl, *y, self.scale);
                let pw: u32 = product(fl, *w, self.scale);
                let ph: u32 = product(fl, *h, self.scale);
                let (bw, bh) = self.backdrop();
                let bw_single: u32 = of_int(fl, bw as i64);
                let bh_single: u32 = of_int(fl, bh as i64);
                let deviation: u32 = sigma_for_radius(
                    ratio(fl, *blur_radius, of_int(fl, BLUR_DOWNSAMPLE as i64)),
                    fl,
                );
                Some(
                    FrostJob {
                        min: (px, py),
                        max: (sum(fl, px, pw), sum(fl, py, ph)),
                        resolution: (of_int(fl, self.width as i64), of_int(fl, self.height as i64)),
                        backdrop: (bw_single, bh_single),
                        tint: linear_of(*tint, fl),
                        corner_radius: lesser_of(
                            product(fl, greater_of(*corner_radius, 0), self.scale),
                            ratio(fl, lesser_of(pw, ph), TWO),
                        ),
                        edge: EDGE,
                        texel: (ratio(fl, ONE, bw_single), ratio(fl, ONE, bh_single)),
                        sigma: deviation,
                        taps: taps_for_sigma(deviation, fl),
                    },
                )
            },
            _ => None,
        }
    }
}

/// `true` exactly when the setting asks for the faster graphics processor.
pub fn wants_high_power(setting: Option<&str>) -> (r: bool)
    ensures
        r == match setting {
            Some(s) => s@ == "high"@ || s@ == "HIGH"@ || s@ == "high_performance"@,
            None => false,
        },
{
    match setting {
        Some(s) => same(s, "high") || same(s, "HIGH") || same(s, "high_performance"),
        None => false,
    }
}

/// Which of the formats that a surface offers is taken, where `srgb` says of each whether it is
/// sRGB encoded: the first that is, else the first.
pub fn pick_format(srgb: &[bool]) -> (r: usize)
    requires
        srgb@.len() > 0,
    ensures
        r < srgb@.len(),
        if srgb@.contains(true) {
            srgb@[r as int] && forall|j: int| 0 <= j < r ==> !srgb@[j]
        } else {
            r == 0
        },
{
    let mut i: usize = 0;
    while i < srgb.len()
        invariant
            i <= srgb@.len(),
            forall|j: int| 0 <= j < i ==> !srgb@[j],
        decreases srgb.len() - i,
    {
        if srgb[i] {
            assert(srgb@[i as int] == true);
            return i;
        }
        i += 1;
    }
    0
}

/// Why a surface gave no frame.
#[derive(Debug, Clone, Copy, PartialEq, Eq, Structural)]
pub enum SurfaceFailure {
    Lost,
    Outdated,
    OutOfMemory,
    Timeout,
}

/// What a surface that gave no frame means for the caller.
pub fn frame_error(f: SurfaceFailure) -> (r: RenderError)
    ensures
        r == match f {
            SurfaceFailure::Lost => RenderError::SurfaceLost,
            SurfaceFailure::Outdated => RenderError::SurfaceLost,
            SurfaceFailure::OutOfMemory => RenderError::OutOfMemory,
            SurfaceFailure::Timeout => RenderError::Transient,
        },
{
    match f {
        SurfaceFailure::Lost => RenderError::SurfaceLost,
        SurfaceFailure::Outdated => RenderError::SurfaceLost,
        SurfaceFailure::OutOfMemory => RenderError::OutOfMemory,
        SurfaceFailure::Timeout => RenderError::Transient,
    }
}

/// A scene without panels is drawn in one pass, and one with panels in one more than it has.
pub proof fn law_panels_split_passes(fl: Unit, s: Surface, cmds: Seq<CmdModel>, i: int)
    requires
        0 <= i <= cmds.len(),
    ensures
        passes_from(fl, s, cmds, i).len() == panels_from(cmds, i) + 1,
    decreases cmds.len() - i,
{
    lemma_next_panel(cmds, i);
    let j = next_panel(cmds, i);
    if j < cmds.len() {
        law_panels_split_passes(fl, s, cmds, j + 1);
    }
}

/// How many panels there are from `i` on.
pub open spec fn panels_from(cmds: Seq<CmdModel>, i: int) -> nat
    decreases cmds.len() - i,
{
    if i < 0 || i >= cmds.len() {
        0
    } else if cmds[i] is FrostedRect {
        1 + panels_from(cmds, i + 1)
    } else {
        panels_from(cmds, i + 1)
    }
}

proof fn lemma_next_panel(cmds: Seq<CmdModel>, i: int)
    requires
        0 <= i <= cmds.len(),
    ensures
        i <= next_panel(cmds, i) <= cmds.len(),
        next_panel(cmds, i) < cmds.len() ==> panels_from(cmds, i) == 1 + panels_from(
            cmds,
            next_panel(cmds, i) + 1,
        ),
        next_panel(cmds, i) == cmds.len() ==> panels_from(cmds, i) == 0,
    decreases cmds.len() - i,
{
    if i < cmds.len() && !(cmds[i] is FrostedRect) {
        lemma_next_panel(cmds, i + 1);
    }
}

} // verus!
