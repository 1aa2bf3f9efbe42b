//! What a renderer is given: a list of drawing commands, painted first to last. Coordinates are
//! singles in logical pixels by their bits; colours are packed as `0xRRGGBBAA`.
use vstd::prelude::*;

use crate::float::{
    abs32, add32, angle32, at_most_single, clamp32, difference, div32, eq32, equal_single,
    greater_of, held_between, int32, le32, less_single, lt32, magnitude_of, max32, mul32, of_int,
    product, ratio, round32, single, sqrt32, steady, sub32, sum, to_u32_single, truncated32, unit,
    FloatOp, Unit,
};
use crate::text::{copy, same};

verus! {

/// One.
pub const ONE: u32 = 0x3F80_0000;

/// The distance from one to the next single.
pub const EPSILON: u32 = 0x3400_0000;

/// A full turn in radians.
pub const TURN: u32 = 0x40C9_0FDB;

/// The brightest value of a channel, 255.
pub const BRIGHTEST: u32 = 0x437F_0000;

/// The outline of a filled shape, which fills the frame that it is given.
#[derive(Debug, Clone, Copy)]
pub enum Shape {
    Rect,
    /// A rectangle with rounded corners.
    RoundedRect { radius: u32 },
    /// A circle as wide as the shorter side, in the middle.
    Circle,
    Ellipse,
    /// A rectangle whose short ends are half circles.
    Capsule,
}

/// The same outline with an equal radius.
pub open spec fn shape_same(a: Shape, b: Shape) -> bool {
    match (a, b) {
        (Shape::RoundedRect { radius: x }, Shape::RoundedRect { radius: y }) => eq32(x, y),
        (Shape::Rect, Shape::Rect) => true,
        (Shape::Circle, Shape::Circle) => true,
        (Shape::Ellipse, Shape::Ellipse) => true,
        (Shape::Capsule, Shape::Capsule) => true,
        _ => false,
    }
}

impl PartialEq for Shape {
    fn eq(&self, other: &Shape) -> (r: bool) {
        match (*self, *other) {
            (Shape::RoundedRect { radius: x }, Shape::RoundedRect { radius: y }) => equal_single(x, y),
            (Shape::Rect, Shape::Rect) => true,
            (Shape::Circle, Shape::Circle) => true,
            (Shape::Ellipse, Shape::Ellipse) => true,
            (Shape::Capsule, Shape::Capsule) => true,
            _ => false,
        }
    }
}

impl vstd::std_specs::cmp::PartialEqSpecImpl for Shape {
    open spec fn obeys_eq_spec() -> bool {
        true
    }

    open spec fn eq_spec(&self, other: &Shape) -> bool {
        shape_same(*self, *other)
    }
}

/// How a shape is filled. Points and radii are fractions of the frame; a stop is an offset from
/// zero to one and a colour.
#[derive(Debug)]
pub enum Fill {
    Solid(u32),
    /// A gradient along the line between two points.
    Linear { start: (u32, u32), end: (u32, u32), stops: Vec<(u32, u32)> },
    /// A gradient between two radii about a point.
    Radial { center: (u32, u32), start_radius: u32, end_radius: u32, stops: Vec<(u32, u32)> },
    /// A gradient swept about a point.
    Angular { center: (u32, u32), stops: Vec<(u32, u32)> },
}

/// A [`Fill`] as mathematics.
pub enum FillModel {
    Solid(u32),
    Linear { start: (u32, u32), end: (u32, u32), stops: Seq<(u32, u32)> },
    Radial { center: (u32, u32), start_radius: u32, end_radius: u32, stops: Seq<(u32, u32)> },
    Angular { center: (u32, u32), stops: Seq<(u32, u32)> },
}

impl View for Fill {
    type V = FillModel;

    open spec fn view(&self) -> FillModel {
        match *self {
            Fill::Solid(c) => FillModel::Solid(c),
            Fill::Linear { start, end, stops } => FillModel::Linear { start, end, stops: stops@ },
            Fill::Radial { center, start_radius, end_radius, stops } => FillModel::Radial {
                center,
                start_radius,
                end_radius,
                stops: stops@,
            },
            Fill::Angular { center, stops } => FillModel::Angular { center, stops: stops@ },
        }
    }
}

/// Two points with equal coordinates.
pub open spec fn point_same(a: (u32, u32), b: (u32, u32)) -> bool {
    eq32(a.0, b.0) && eq32(a.1, b.1)
}

/// Equal offsets and colours, stop by stop.
pub open spec fn stops_same(a: Seq<(u32, u32)>, b: Seq<(u32, u32)>) -> bool {
    &&& a.len() == b.len()
    &&& forall|i: int| 0 <= i < a.len() ==> eq32((#[trigger] a[i]).0, b[i].0) && a[i].1 == b[i].1
}

/// The same kind of fill with equal parts.
pub open spec fn fill_same(a: FillModel, b: FillModel) -> bool {
    match (a, b) {
        (FillModel::Solid(x), FillModel::Solid(y)) => x == y,
        (
            FillModel::Linear { start: s, end: e, stops: x },
            FillModel::Linear { start: t, end: f, stops: y },
        ) => point_same(s, t) && point_same(e, f) && stops_same(x, y),
        (
            FillModel::Radial { center: c, start_radius: p, end_radius: q, stops: x },
            FillModel::Radial { center: d, start_radius: r, end_radius: s, stops: y },
        ) => point_same(c, d) && eq32(p, r) && eq32(q, s) && stops_same(x, y),
        (FillModel::Angular { center: c, stops: x }, FillModel::Angular { center: d, stops: y })
            => point_same(c, d) && stops_same(x, y),
        _ => false,
    }
}

fn same_point(a: (u32, u32), b: (u32, u32)) -> (r: bool)
    ensures
        r == point_same(a, b),
{
    equal_single(a.0, b.0) && equal_single(a.1, b.1)
}

fn same_stops(a: &Vec<(u32, u32)>, b: &Vec<(u32, u32)>) -> (r: bool)
    ensures
        r == stops_same(a@, b@),
{
    if a.len() != b.len() {
        return false;
    }
    let mut i: usize = 0;
    while i < a.len()
        invariant
            i <= a@.len(),
            a@.len() == b@.len(),
            forall|j: int| 0 <= j < i ==> eq32((#[trigger] a@[j]).0, b@[j].0) && a@[j].1 == b@[j].1,
        decreases a.len() - i,
    {
        if !equal_single(a[i].0, b[i].0) || a[i].1 != b[i].1 {
            assert(!(eq32(a@[i as int].0, b@[i as int].0) && a@[i as int].1 == b@[i as int].1));
            return false;
        }
        i += 1;
    }
    true
}

impl PartialEq for Fill {
    fn eq(&self, other: &Fill) -> (r: bool) {
        match (self, other) {
            (Fill::Solid(x), Fill::Solid(y)) => *x == *y,
            (
                Fill::Linear { start: s, end: e, stops: x },
                Fill::Linear { start: t, end: f, stops: y },
            ) => same_point(*s, *t) && same_point(*e, *f) && same_stops(x, y),
            (
                Fill::Radial { center: c, start_radius: p, end_radius: q, stops: x },
                Fill::Radial { center: d, start_radius: u, end_radius: v, stops: y },
            ) => same_point(*c, *d) && equal_single(*p, *u) && equal_single(*q, *v) && same_stops(x, y),
            (Fill::Angular { center: c, stops: x }, Fill::Angular { center: d, stops: y })
                => same_point(*c, *d) && same_stops(x, y),
            _ => false,
        }
    }
}

impl vstd::std_specs::cmp::PartialEqSpecImpl for Fill {
    open spec fn obeys_eq_spec() -> bool {
        true
    }

    open spec fn eq_spec(&self, other: &Fill) -> bool {
        fill_same(self@, other@)
    }
}

fn copy_stops(v: &Vec<(u32, u32)>) -> (r: Vec<(u32, u32)>)
    ensures
        r@ == v@,
{
    let mut r: Vec<(u32, u32)> = Vec::new();
    let mut i: usize = 0;
    while i < v.len()
        invariant
            i <= v@.len(),
            r@ == v@.take(i as int),
        decreases v.len() - i,
    {
        r.push(v[i]);
        i += 1;
        assert(r@ =~= v@.take(i as int));
    }
    assert(r@ =~= v@);
    r
}

impl Clone for Fill {
    fn clone(&self) -> (r: Fill)
        ensures
            r@ == self@,
    {
        match self {
            Fill::Solid(c) => Fill::Solid(*c),
            Fill::Linear { start, end, stops } => Fill::Linear {
                start: *start,
                end: *end,
                stops: copy_stops(stops),
            },
            Fill::Radial { center, start_radius, end_radius, stops } => Fill::Radial {
                center: *center,
                start_radius: *start_radius,
                end_radius: *end_radius,
                stops: copy_stops(stops),
            },
            Fill::Angular { center, stops } => Fill::Angular {
                center: *center,
                stops: copy_stops(stops),
            },
        }
    }
}

/// The colour of the first stop, or none.
pub open spec fn first_color(stops: Seq<(u32, u32)>) -> u32 {
    if stops.len() == 0 {
        0
    } else {
        stops[0].1
    }
}

/// One colour that stands for the fill.
pub open spec fn representative(f: FillModel) -> u32 {
    match f {
        FillModel::Solid(c) => c,
        FillModel::Linear { stops, .. } => first_color(stops),
        FillModel::Radial { stops, .. } => first_color(stops),
        FillModel::Angular { stops, .. } => first_color(stops),
    }
}

/// A channel between two, by a fraction.
pub open spec fn mixed_channel(fl: Unit, a: u32, b: u32, f: u32, shift: u32) -> u32 {
    let x = int32(fl, ((a >> shift) & 0xff) as i64);
    let y = int32(fl, ((b >> shift) & 0xff) as i64);
    let z = add32(fl, x, mul32(fl, sub32(fl, y, x), f));
    (truncated32(fl, clamp32(round32(fl, z), 0, BRIGHTEST), 0, u32::MAX as int) as u32) << shift
}

/// A colour between two, by a fraction, channel by channel.
pub open spec fn mixed(fl: Unit, a: u32, b: u32, f: u32) -> u32 {
    let g = clamp32(f, 0, ONE);
    mixed_channel(fl, a, b, g, 24) | mixed_channel(fl, a, b, g, 16) | mixed_channel(fl, a, b, g, 8)
        | mixed_channel(fl, a, b, g, 0)
}

/// The colour at `t` between the stops from `i` on, of which `t` lies in the first pair that
/// holds it; the last stop where none does.
pub open spec fn between_stops(fl: Unit, stops: Seq<(u32, u32)>, t: u32, i: int) -> u32
    decreases stops.len() - i,
{
    if i < 0 || i + 1 >= stops.len() {
        stops.last().1
    } else {
        let (o0, c0) = stops[i];
        let (o1, c1) = stops[i + 1];
        if le32(o0, t) && le32(t, o1) {
            let span = max32(sub32(fl, o1, o0), EPSILON);
            mixed(fl, c0, c1, div32(fl, sub32(fl, t, o0), span))
        } else {
            between_stops(fl, stops, t, i + 1)
        }
    }
}

/// The colour of a gradient at an offset, which is held between zero and one.
pub open spec fn stop_color(fl: Unit, stops: Seq<(u32, u32)>, at: u32) -> u32 {
    let t = clamp32(at, 0, ONE);
    if stops.len() == 0 {
        0
    } else if le32(t, stops[0].0) {
        stops[0].1
    } else if le32(stops.last().0, t) {
        stops.last().1
    } else {
        between_stops(fl, stops, t, 0)
    }
}

/// The offset of a point on a linear gradient: its place along the line between the ends.
pub open spec fn linear_offset(fl: Unit, start: (u32, u32), end: (u32, u32), u: u32, v: u32) -> u32 {
    let dx = sub32(fl, end.0, start.0);
    let dy = sub32(fl, end.1, start.1);
    let len2 = add32(fl, mul32(fl, dx, dx), mul32(fl, dy, dy));
    if le32(len2, EPSILON) {
        0
    } else {
        div32(
            fl,
            add32(
                fl,
                mul32(fl, sub32(fl, u, start.0), dx),
                mul32(fl, sub32(fl, v, start.1), dy),
            ),
            len2,
        )
    }
}

/// The offset of a point on a radial gradient: its distance from the centre between the radii.
pub open spec fn radial_offset(fl: Unit, center: (u32, u32), from: u32, to: u32, u: u32, v: u32) -> u32 {
    let du = sub32(fl, u, center.0);
    let dv = sub32(fl, v, center.1);
    let dist = sqrt32(fl, add32(fl, mul32(fl, du, du), mul32(fl, dv, dv)));
    let span = sub32(fl, to, from);
    if le32(abs32(span), EPSILON) {
        0
    } else {
        div32(fl, sub32(fl, dist, from), span)
    }
}

/// The offset of a point on an angular gradient: its angle in turns, from zero to one.
pub open spec fn angular_offset(fl: Unit, center: (u32, u32), u: u32, v: u32) -> u32 {
    let du = sub32(fl, u, center.0);
    let dv = sub32(fl, v, center.1);
    let a = div32(fl, angle32(fl, dv, du), TURN);
    if lt32(a, 0) {
        add32(fl, a, ONE)
    } else {
        a
    }
}

/// The colour of a fill at a point of its frame.
pub open spec fn sampled(fl: Unit, f: FillModel, u: u32, v: u32) -> u32 {
    match f {
        FillModel::Solid(c) => c,
        FillModel::Linear { start, end, stops } => stop_color(
            fl,
            stops,
            linear_offset(fl, start, end, u, v),
        ),
        FillModel::Radial { center, start_radius, end_radius, stops } => stop_color(
            fl,
            stops,
            radial_offset(fl, center, start_radius, end_radius, u, v),
        ),
        FillModel::Angular { center, stops } => stop_color(
            fl,
            stops,
            angular_offset(fl, center, u, v),
        ),
    }
}

fn mix_channel<F: Fn(&FloatOp) -> Option<u64>>(fl: &F, a: u32, b: u32, f: u32, shift: u32) -> (r: u32)
    requires
        steady(*fl),
        shift < 32,
    ensures
        r == mixed_channel(unit(*fl), a, b, f, shift),
{
    let x: u32 = of_int(fl, ((a >> shift) & 0xff) as i64);
    let y: u32 = of_int(fl, ((b >> shift) & 0xff) as i64);
    let part: u32 = product(fl, difference(fl, y, x), f);
    let z: u32 = sum(fl, x, part);
    let whole: u32 = single(fl, &FloatOp::RoundSingle { x: z });
    to_u32_single(fl, held_between(whole, 0, BRIGHTEST)) << shift
}

fn lerp_color<F: Fn(&FloatOp) -> Option<u64>>(fl: &F, a: u32, b: u32, f: u32) -> (r: u32)
    requires
        steady(*fl),
    ensures
        r == mixed(unit(*fl), a, b, f),
{
    let g: u32 = held_between(f, 0, ONE);
    mix_channel(fl, a, b, g, 24) | mix_channel(fl, a, b, g, 16) | mix_channel(fl, a, b, g, 8)
        | mix_channel(fl, a, b, g, 0)
}

fn sample_stops<F: Fn(&FloatOp) -> Option<u64>>(fl: &F, stops: &Vec<(u32, u32)>, at: u32) -> (r: u32)
    requires
        steady(*fl),
    ensures
        r == stop_color(unit(*fl), stops@, at),
{
    let n: usize = stops.len();
    if n == 0 {
        return 0;
    }
    let t: u32 = held_between(at, 0, ONE);
    if at_most_single(t, stops[0].0) {
        return stops[0].1;
    }
    if at_most_single(stops[n - 1].0, t) {
        return stops[n - 1].1;
    }
    let mut i: usize = 0;
    while i < n - 1
        invariant
            steady(*fl),
            n == stops@.len(),
            n > 0,
            i <= n - 1,
            between_stops(unit(*fl), stops@, t, 0) == between_stops(unit(*fl), stops@, t, i as int),
            stop_color(unit(*fl), stops@, at) == between_stops(unit(*fl), stops@, t, 0),
        decreases n - i,
    {
        let (o0, c0) = stops[i];
        let (o1, c1) = stops[i + 1];
        if at_most_single(o0, t) && at_most_single(t, o1) {
            let span: u32 = greater_of(difference(fl, o1, o0), EPSILON);
            let f: u32 = ratio(fl, difference(fl, t, o0), span);
            return lerp_color(fl, c0, c1, f);
        }
        i += 1;
    }
    stops[n - 1].1
}

impl Fill {
    /// One colour for a renderer that draws no gradients: that of the first stop.
    pub fn representative_color(&self) -> (r: u32)
        ensures
            r == representative(self@),
    {
        match self {
            Fill::Solid(c) => *c,
            Fill::Linear { stops, .. } => first(stops),
            Fill::Radial { stops, .. } => first(stops),
            Fill::Angular { stops, .. } => first(stops),
        }
    }

    /// The colour at the point `(u, v)` of the frame, whose corners are `(0, 0)` and `(1, 1)`.
    pub fn sample<F: Fn(&FloatOp) -> Option<u64>>(&self, u: u32, v: u32, fl: &F) -> (r: u32)
        requires
            steady(*fl),
        ensures
            r == sampled(unit(*fl), self@, u, v),
    {
        match self {
            Fill::Solid(c) => *c,
            Fill::Linear { start, end, stops } => {
                let dx: u32 = difference(fl, end.0, start.0);
                let dy: u32 = difference(fl, end.1, start.1);
                let len2: u32 = sum(fl, product(fl, dx, dx), product(fl, dy, dy));
                let t: u32 = if at_most_single(len2, EPSILON) {
                    0
                } else {
                    let along: u32 = product(fl, difference(fl, u, start.0), dx);
                    let down: u32 = product(fl, difference(fl, v, start.1), dy);
                    ratio(fl, sum(fl, along, down), len2)
                };
                sample_stops(fl, stops, t)
            },
            Fill::Radial { center, start_radius, end_radius, stops } => {
                let du: u32 = difference(fl, u, center.0);
                let dv: u32 = difference(fl, v, center.1);
                let square: u32 = sum(fl, product(fl, du, du), product(fl, dv, dv));
                let dist: u32 = single(fl, &FloatOp::SqrtSingle { x: square });
                let span: u32 = difference(fl, *end_radius, *start_radius);
                let t: u32 = if at_most_single(magnitude_of(span), EPSILON) {
                    0
                } else {
                    ratio(fl, difference(fl, dist, *start_radius), span)
                };
                sample_stops(fl, stops, t)
            },
            Fill::Angular { center, stops } => {
                let du: u32 = difference(fl, u, center.0);
                let dv: u32 = difference(fl, v, center.1);
                let angle: u32 = single(fl, &FloatOp::AngleSingle { y: dv, x: du });
                let a: u32 = ratio(fl, angle, TURN);
                let t: u32 = if less_single(a, 0) {
                    sum(fl, a, ONE)
                } else {
                    a
                };
                sample_stops(fl, stops, t)
            },
        }
    }
}

fn first(stops: &Vec<(u32, u32)>) -> (r: u32)
    ensures
        r == first_color(stops@),
{
    if stops.len() == 0 {
        0
    } else {
        stops[0].1
    }
}

/// One step of a path.
#[derive(Debug, Clone, Copy)]
pub enum PathOp {
    MoveTo { x: u32, y: u32 },
    LineTo { x: u32, y: u32 },
    /// A curve to `(x, y)` that `(cx, cy)` pulls.
    QuadTo { cx: u32, cy: u32, x: u32, y: u32 },
    Close,
}

/// The same step over equal points.
pub open spec fn path_op_same(a: PathOp, b: PathOp) -> bool {
    match (a, b) {
        (PathOp::MoveTo { x: p, y: q }, PathOp::MoveTo { x: r, y: s }) => eq32(p, r) && eq32(q, s),
        (PathOp::LineTo { x: p, y: q }, PathOp::LineTo { x: r, y: s }) => eq32(p, r) && eq32(q, s),
        (PathOp::QuadTo { cx: c, cy: d, x: p, y: q }, PathOp::QuadTo { cx: e, cy: f, x: r, y: s })
            => eq32(c, e) && eq32(d, f) && eq32(p, r) && eq32(q, s),
        (PathOp::Close, PathOp::Close) => true,
        _ => false,
    }
}

impl PartialEq for PathOp {
    fn eq(&self, other: &PathOp) -> (res: bool) {
        match (*self, *other) {
            (PathOp::MoveTo { x: p, y: q }, PathOp::MoveTo { x: r, y: s }) => equal_single(p, r)
                && equal_single(q, s),
            (PathOp::LineTo { x: p, y: q }, PathOp::LineTo { x: r, y: s }) => equal_single(p, r)
                && equal_single(q, s),
            (PathOp::QuadTo { cx: c, cy: d, x: p, y: q }, PathOp::QuadTo { cx: e, cy: f, x: r, y: s })
                => equal_single(c, e) && equal_single(d, f) && equal_single(p, r) && equal_single(q, s),
            (PathOp::Close, PathOp::Close) => true,
            _ => false,
        }
    }
}

impl vstd::std_specs::cmp::PartialEqSpecImpl for PathOp {
    open spec fn obeys_eq_spec() -> bool {
        true
    }

    open spec fn eq_spec(&self, other: &PathOp) -> bool {
        path_op_same(*self, *other)
    }
}

/// One thing to draw.
#[derive(Debug)]
#[allow(inconsistent_fields)]
pub enum DrawCmd {
    /// A rectangle of one colour. The rotation is in degrees, clockwise, about its middle.
    FilledRect { x: u32, y: u32, w: u32, h: u32, color: u32, corner_radius: u32, rotation: u32 },
    /// A panel of frosted glass over all that was drawn before it.
    FrostedRect { x: u32, y: u32, w: u32, h: u32, corner_radius: u32, tint: u32, blur_radius: u32 },
    /// A run of text from its top left corner.
    Text { x: u32, y: u32, content: String, size: u32, color: u32 },
    /// A shape in a frame.
    FilledShape { x: u32, y: u32, w: u32, h: u32, shape: Shape, fill: Fill, rotation: u32 },
    /// A path, filled, or stroked with a colour and a width, or both.
    Path { ops: Vec<PathOp>, fill: Option<Fill>, stroke: Option<(u32, u32)> },
}

/// A [`DrawCmd`] as mathematics.
#[allow(inconsistent_fields)]
pub enum CmdModel {
    FilledRect { x: u32, y: u32, w: u32, h: u32, color: u32, corner_radius: u32, rotation: u32 },
    FrostedRect { x: u32, y: u32, w: u32, h: u32, corner_radius: u32, tint: u32, blur_radius: u32 },
    Text { x: u32, y: u32, content: Seq<char>, size: u32, color: u32 },
    FilledShape { x: u32, y: u32, w: u32, h: u32, shape: Shape, fill: FillModel, rotation: u32 },
    Path { ops: Seq<PathOp>, fill: Option<FillModel>, stroke: Option<(u32, u32)> },
}

impl View for DrawCmd {
    type V = CmdModel;

    open spec fn view(&self) -> CmdModel {
        match *self {
            DrawCmd::FilledRect { x, y, w, h, color, corner_radius, rotation } => CmdModel::FilledRect {
                x,
                y,
                w,
                h,
                color,
                corner_radius,
                rotation,
            },
            DrawCmd::FrostedRect { x, y, w, h, corner_radius, tint, blur_radius }
                => CmdModel::FrostedRect { x, y, w, h, corner_radius, tint, blur_radius },
            DrawCmd::Text { x, y, content, size, color } => CmdModel::Text {
                x,
                y,
                content: content@,
                size,
                color,
            },
            DrawCmd::FilledShape { x, y, w, h, shape, fill, rotation } => CmdModel::FilledShape {
                x,
                y,
                w,
                h,
                shape,
                fill: fill@,
                rotation,
            },
            DrawCmd::Path { ops, fill, stroke } => CmdModel::Path {
                ops: ops@,
                fill: match fill {
                    Some(f) => Some(f@),
                    None => None,
                },
                stroke,
            },
        }
    }
}

/// Things to draw, first to last.
pub type Scene = Vec<DrawCmd>;

/// A [`Scene`] as mathematics.
pub open spec fn cmd_models(s: Seq<DrawCmd>) -> Seq<CmdModel> {
    s.map_values(|c: DrawCmd| c@)
}

impl DrawCmd {
    /// A rectangle that is not rotated.
    pub fn filled_rect(x: u32, y: u32, w: u32, h: u32, color: u32, corner_radius: u32) -> (r: DrawCmd)
        ensures
            r@ == (CmdModel::FilledRect { x, y, w, h, color, corner_radius, rotation: 0 }),
    {
        DrawCmd::FilledRect { x, y, w, h, color, corner_radius, rotation: 0 }
    }

    /// A shape that is not rotated.
    pub fn filled_shape(x: u32, y: u32, w: u32, h: u32, shape: Shape, fill: Fill) -> (r: DrawCmd)
        ensures
            r@ == (CmdModel::FilledShape { x, y, w, h, shape, fill: fill@, rotation: 0 }),
    {
        DrawCmd::FilledShape { x, y, w, h, shape, fill, rotation: 0 }
    }
}

/// Equal steps, one by one.
pub open spec fn ops_same(a: Seq<PathOp>, b: Seq<PathOp>) -> bool {
    &&& a.len() == b.len()
    &&& forall|i: int| 0 <= i < a.len() ==> path_op_same(#[trigger] a[i], b[i])
}

/// The same kind of command with equal parts.
pub open spec fn cmd_same(a: CmdModel, b: CmdModel) -> bool {
    match (a, b) {
        (
            CmdModel::FilledRect { x, y, w, h, color, corner_radius, rotation },
            CmdModel::FilledRect {
                x: x2,
                y: y2,
                w: w2,
                h: h2,
                color: color2,
                corner_radius: corner2,
                rotation: rotation2,
            },
        ) => frame_same((x, y, w, h), (x2, y2, w2, h2)) && color == color2 && eq32(corner_radius, corner2)
            && eq32(rotation, rotation2),
        (
            CmdModel::FrostedRect { x, y, w, h, corner_radius, tint, blur_radius },
            CmdModel::FrostedRect {
                x: x2,
                y: y2,
                w: w2,
                h: h2,
                corner_radius: corner2,
                tint: tint2,
                blur_radius: blur2,
            },
        ) => frame_same((x, y, w, h), (x2, y2, w2, h2)) && eq32(corner_radius, corner2) && tint == tint2
            && eq32(blur_radius, blur2),
        (
            CmdModel::Text { x, y, content, size, color },
            CmdModel::Text { x: x2, y: y2, content: content2, size: size2, color: color2 },
        ) => eq32(x, x2) && eq32(y, y2) && content == content2 && eq32(size, size2) && color == color2,
        (
            CmdModel::FilledShape { x, y, w, h, shape, fill, rotation },
            CmdModel::FilledShape {
                x: x2,
                y: y2,
                w: w2,
                h: h2,
                shape: shape2,
                fill: fill2,
                rotation: rotation2,
            },
        ) => frame_same((x, y, w, h), (x2, y2, w2, h2)) && shape_same(shape, shape2) && fill_same(
            fill,
            fill2,
        ) && eq32(rotation, rotation2),
        (
            CmdModel::Path { ops, fill, stroke },
            CmdModel::Path { ops: ops2, fill: fill2, stroke: stroke2 },
        ) => ops_same(ops, ops2) && match (fill, fill2) {
            (Some(f), Some(g)) => fill_same(f, g),
            (None, None) => true,
            _ => false,
        } && match (stroke, stroke2) {
            (Some(p), Some(q)) => p.0 == q.0 && eq32(p.1, q.1),
            (None, None) => true,
            _ => false,
        },
        _ => false,
    }
}

/// Equal frames.
pub open spec fn frame_same(a: (u32, u32, u32, u32), b: (u32, u32, u32, u32)) -> bool {
    eq32(a.0, b.0) && eq32(a.1, b.1) && eq32(a.2, b.2) && eq32(a.3, b.3)
}

fn same_frame(a: (u32, u32, u32, u32), b: (u32, u32, u32, u32)) -> (r: bool)
    ensures
        r == frame_same(a, b),
{
    equal_single(a.0, b.0) && equal_single(a.1, b.1) && equal_single(a.2, b.2) && equal_single(a.3, b.3)
}

fn same_ops(a: &Vec<PathOp>, b: &Vec<PathOp>) -> (r: bool)
    ensures
        r == ops_same(a@, b@),
{
    if a.len() != b.len() {
        return false;
    }
    let mut i: usize = 0;
    while i < a.len()
        invariant
            i <= a@.len(),
            a@.len() == b@.len(),
            forall|j: int| 0 <= j < i ==> path_op_same(#[trigger] a@[j], b@[j]),
        decreases a.len() - i,
    {
        if !(a[i] == b[i]) {
            assert(!path_op_same(a@[i as int], b@[i as int]));
            return false;
        }
        i += 1;
    }
    true
}

fn same_fills(a: &Option<Fill>, b: &Option<Fill>) -> (r: bool)
    ensures
        r == match (*a, *b) {
            (Some(f), Some(g)) => fill_same(f@, g@),
            (None, None) => true,
            _ => false,
        },
{
    match (a, b) {
        (Some(f), Some(g)) => *f == *g,
        (None, None) => true,
        _ => false,
    }
}

impl PartialEq for DrawCmd {
    fn eq(&self, other: &DrawCmd) -> (r: bool) {
        match (self, other) {
            (
                DrawCmd::FilledRect { x, y, w, h, color, corner_radius, rotation },
                DrawCmd::FilledRect {
                    x: x2,
                    y: y2,
                    w: w2,
                    h: h2,
                    color: color2,
                    corner_radius: corner2,
                    rotation: rotation2,
                },
            ) => same_frame((*x, *y, *w, *h), (*x2, *y2, *w2, *h2)) && *color == *color2 && equal_single(
                *corner_radius,
                *corner2,
            ) && equal_single(*rotation, *rotation2),
            (
                DrawCmd::FrostedRect { x, y, w, h, corner_radius, tint, blur_radius },
                DrawCmd::FrostedRect {
                    x: x2,
                    y: y2,
                    w: w2,
                    h: h2,
                    corner_radius: corner2,
                    tint: tint2,
                    blur_radius: blur2,
                },
            ) => same_frame((*x, *y, *w, *h), (*x2, *y2, *w2, *h2)) && equal_single(
                *corner_radius,
                *corner2,
            ) && *tint == *tint2 && equal_single(*blur_radius, *blur2),
            (
                DrawCmd::Text { x, y, content, size, color },
                DrawCmd::Text { x: x2, y: y2, content: content2, size: size2, color: color2 },
            ) => equal_single(*x, *x2) && equal_single(*y, *y2) && same(
                content.as_str(),
                content2.as_str(),
            ) && equal_single(*size, *size2) && *color == *color2,
            (
                DrawCmd::FilledShape { x, y, w, h, shape, fill, rotation },
                DrawCmd::FilledShape {
                    x: x2,
                    y: y2,
                    w: w2,
                    h: h2,
                    shape: shape2,
                    fill: fill2,
                    rotation: rotation2,
                },
            ) => same_frame((*x, *y, *w, *h), (*x2, *y2, *w2, *h2)) && *shape == *shape2 && *fill == *fill2
                && equal_single(*rotation, *rotation2),
            (
                DrawCmd::Path { ops, fill, stroke },
                DrawCmd::Path { ops: ops2, fill: fill2, stroke: stroke2 },
            ) => same_ops(ops, ops2) && same_fills(fill, fill2) && match (stroke, stroke2) {
                (Some(p), Some(q)) => p.0 == q.0 && equal_single(p.1, q.1),
                (None, None) => true,
                _ => false,
            },
            _ => false,
        }
    }
}

impl vstd::std_specs::cmp::PartialEqSpecImpl for DrawCmd {
    open spec fn obeys_eq_spec() -> bool {
        true
    }

    open spec fn eq_spec(&self, other: &DrawCmd) -> bool {
        cmd_same(self@, other@)
    }
}

fn copy_ops(v: &Vec<PathOp>) -> (r: Vec<PathOp>)
    ensures
        r@ == v@,
{
    let mut r: Vec<PathOp> = Vec::new();
    let mut i: usize = 0;
    while i < v.len()
        invariant
            i <= v@.len(),
            r@ == v@.take(i as int),
        decreases v.len() - i,
    {
        r.push(v[i]);
        i += 1;
        assert(r@ =~= v@.take(i as int));
    }
    assert(r@ =~= v@);
    r
}

impl Clone for DrawCmd {
    fn clone(&self) -> (r: DrawCmd)
        ensures
            r@ == self@,
    {
        match self {
            DrawCmd::FilledRect { x, y, w, h, color, corner_radius, rotation } => DrawCmd::FilledRect {
                x: *x,
                y: *y,
                w: *w,
                h: *h,
                color: *color,
                corner_radius: *corner_radius,
                rotation: *rotation,
            },
            DrawCmd::FrostedRect { x, y, w, h, corner_radius, tint, blur_radius }
                => DrawCmd::FrostedRect {
                x: *x,
                y: *y,
                w: *w,
                h: *h,
                corner_radius: *corner_radius,
                tint: *tint,
                blur_radius: *blur_radius,
            },
            DrawCmd::Text { x, y, content, size, color } => DrawCmd::Text {
                x: *x,
                y: *y,
                content: copy(content.as_str()),
                size: *size,
                color: *color,
            },
            DrawCmd::FilledShape { x, y, w, h, shape, fill, rotation } => DrawCmd::FilledShape {
                x: *x,
                y: *y,
                w: *w,
                h: *h,
                shape: *shape,
                fill: fill.clone(),
                rotation: *rotation,
            },
            DrawCmd::Path { ops, fill, stroke } => DrawCmd::Path {
                ops: copy_ops(ops),
                fill: match fill {
                    Some(f) => Some(f.clone()),
                    None => None,
                },
                stroke: *stroke,
            },
        }
    }
}

} // verus!
