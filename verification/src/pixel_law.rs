//! What painting leaves on the pixels of a canvas, and what colours come to.
use vstd::prelude::*;
use vstd::utf8::encode_utf8;

use crate::canvas::{
    byte_of, cover_of, covers, filled, on_canvas, over, painted, painted_all, pixel, Light, LightOp, Over,
};
use crate::color::{channel, linear, unpacked};
use crate::expr_law::answer;
use crate::float::{add32, clamp32, mul32, sub32, truncated, FloatQuery, Unit};
use crate::gesture_law::{adds_either_way, at_most, lemma_at_most};
use crate::place_law::said;
use crate::scene::{linear_offset, radial_offset, sampled, stop_color, CmdModel, FillModel};
use crate::swiftui_law::rgba;

verus! {

/// The single stands at the integer when it is rounded towards zero.
pub open spec fn stands_at(fl: Unit, s: u32, n: int) -> bool {
    truncated(answer(fl, FloatQuery::Widen { single: s }), i32::MIN as int, i32::MAX as int) == n
}

/// The place of a pixel in the buffer, by its column and row.
pub open spec fn place(width: u32, column: int, row: int) -> int {
    row * width + column
}

proof fn lemma_place(width: u32, column: int, row: int)
    requires
        0 <= column < width,
        0 <= row,
    ensures
        place(width, column, row) % (width as int) == column,
        place(width, column, row) / (width as int) == row,
        0 <= place(width, column, row),
{
    let w = width as int;
    vstd::arithmetic::div_mod::lemma_fundamental_div_mod_converse(row * w + column, w, row, column);
    assert(0 <= row * w) by (nonlinear_arith)
        requires
            0 <= row,
            0 <= w,
    ;
}

proof fn lemma_pixel(p: Seq<u8>, q: Seq<u8>, k: int, c: u32)
    requires
        0 <= k,
        4 * k + 3 < p.len(),
        p.len() == q.len(),
        forall|i: int| 0 <= i < 4 ==> q[#[trigger] (4 * k + i)] == byte_of(c, i),
    ensures
        pixel(q, k) == c,
{
    assert(q[4 * k + 0] == byte_of(c, 0));
    assert(q[4 * k + 1] == byte_of(c, 1));
    assert(q[4 * k + 2] == byte_of(c, 2));
    assert(q[4 * k + 3] == byte_of(c, 3));
}

/// A rectangle is filled from its corner up to its far corner: each pixel of the canvas between
/// them has the colour over what it had, and every other stays. A colour that is not to be seen at
/// all leaves every pixel.
pub proof fn law_filled_pixels_take_the_color(
    fl: Unit,
    o: Over,
    p: Seq<u8>,
    width: u32,
    height: u32,
    x: u32,
    y: u32,
    w: u32,
    h: u32,
    color: u32,
    from: (int, int),
    to: (int, int),
    column: int,
    row: int,
)
    requires
        width <= i32::MAX,
        height <= i32::MAX,
        p.len() == 4 * (width * height),
        at_most(0, x) && at_most(0, y),
        stands_at(fl, x, from.0) && stands_at(fl, y, from.1),
        stands_at(fl, said(fl, FloatQuery::AddSingle { x, y: w }), to.0),
        stands_at(fl, said(fl, FloatQuery::AddSingle { x: y, y: h }), to.1),
        0 <= from.0 && 0 <= from.1,
        stands_at(fl, 0, 0),
        0 <= column < width,
        0 <= row < height,
    ensures
        ({
            let k = place(width, column, row);
            let q = filled(fl, o, p, width, height, x, y, w, h, color);
            pixel(q, k) == if from.0 <= column < to.0 && from.1 <= row < to.1 && color % 0x100 != 0 {
                o(color, pixel(p, k))
            } else {
                pixel(p, k)
            }
        }),
{
    let k = place(width, column, row);
    let q = filled(fl, o, p, width, height, x, y, w, h, color);
    let c = cover_of(fl, width, height, x, y, w, h);
    lemma_place(width, column, row);
    assert(row * width + width <= height * width) by (nonlinear_arith)
        requires
            row < height,
            0 <= width,
    ;
    assert(height * width == width * height) by (nonlinear_arith);
    assert(4 * k + 3 < p.len());
    assert(c.x0 == from.0 && c.y0 == from.1);
    assert forall|i: int| 0 <= i < 4 implies (#[trigger] (4 * k + i)) / 4 == k && (4 * k + i) % 4 == i by {}
    let hit = covers(c, width as int, k) && on_canvas(c) && color % 0x100 != 0;
    if hit {
        let d = o(color, pixel(p, k));
        assert forall|i: int| 0 <= i < 4 implies q[#[trigger] (4 * k + i)] == byte_of(d, i) by {}
        lemma_pixel(p, q, k, d);
    } else {
        assert(q[4 * k + 0] == p[4 * k + 0]);
        assert(q[4 * k + 1] == p[4 * k + 1]);
        assert(q[4 * k + 2] == p[4 * k + 2]);
        assert(q[4 * k + 3] == p[4 * k + 3]);
    }
}

/// The width of a text: six tenths of its size for each byte of it.
pub open spec fn text_width(fl: Unit, content: Seq<char>, size: u32) -> u32 {
    let letters = said(fl, FloatQuery::FromIntSingle { value: encode_utf8(content).len() as usize as i64 });
    said(
        fl,
        FloatQuery::MulSingle { x: said(fl, FloatQuery::MulSingle { x: letters, y: size }), y: 0x3F19_999A },
    )
}

/// A command paints its own frame: a rectangle in its colour, a shape in its colour or that of the
/// first stop of its gradient, a frosted panel in its tint at four fifths, a text a bar in its
/// colour, two higher than its size, and a path leaves no mark.
pub proof fn law_command_paints_its_frame(fl: Unit, o: Over, p: Seq<u8>, width: u32, height: u32, c: CmdModel)
    ensures
        c matches CmdModel::FilledRect { x, y, w, h, color, .. } ==> painted(fl, o, p, width, height, c) == filled(
            fl,
            o,
            p,
            width,
            height,
            x,
            y,
            w,
            h,
            color,
        ),
        c matches CmdModel::FrostedRect { x, y, w, h, tint, .. } ==> exists|color: u32|
            color / 0x100 == tint / 0x100 && color % 0x100 == 0xCC && painted(fl, o, p, width, height, c)
                == #[trigger] filled(fl, o, p, width, height, x, y, w, h, color),
        c matches CmdModel::FilledShape { x, y, w, h, fill, .. } ==> {
            &&& fill matches FillModel::Solid(color) ==> painted(fl, o, p, width, height, c) == filled(
                fl,
                o,
                p,
                width,
                height,
                x,
                y,
                w,
                h,
                color,
            )
            &&& fill matches FillModel::Linear { stops, .. } ==> stops.len() > 0 ==> painted(
                fl,
                o,
                p,
                width,
                height,
                c,
            ) == filled(fl, o, p, width, height, x, y, w, h, stops[0].1)
            &&& fill matches FillModel::Radial { stops, .. } ==> stops.len() > 0 ==> painted(
                fl,
                o,
                p,
                width,
                height,
                c,
            ) == filled(fl, o, p, width, height, x, y, w, h, stops[0].1)
            &&& fill matches FillModel::Angular { stops, .. } ==> stops.len() > 0 ==> painted(
                fl,
                o,
                p,
                width,
                height,
                c,
            ) == filled(fl, o, p, width, height, x, y, w, h, stops[0].1)
        },
        c matches CmdModel::Text { x, y, content, size, color } ==> exists|w: u32|
            (w == 0x4080_0000 || w == text_width(fl, content, size)) && painted(fl, o, p, width, height, c)
                == #[trigger] filled(
                fl,
                o,
                p,
                width,
                height,
                x,
                y,
                w,
                said(fl, FloatQuery::AddSingle { x: size, y: 0x4000_0000 }),
                color,
            ),
        c is Path ==> painted(fl, o, p, width, height, c) == p,
{
    if let CmdModel::FrostedRect { x, y, w, h, tint, .. } = c {
        let color = (tint / 0x100 * 0x100 + 0xCC) as u32;
        assert(color / 0x100 == tint / 0x100 && color % 0x100 == 0xCC);
        assert(painted(fl, o, p, width, height, c) == filled(fl, o, p, width, height, x, y, w, h, color));
    }
    if let CmdModel::Text { x, y, content, size, color } = c {
        let w = crate::float::max32(text_width(fl, content, size), 0x4080_0000);
        let h = said(fl, FloatQuery::AddSingle { x: size, y: 0x4000_0000 });
        assert(painted(fl, o, p, width, height, c) == filled(fl, o, p, width, height, x, y, w, h, color));
    }
}

/// What comes later in a scene is painted over what came before: painting two scenes one after the
/// other is painting them as one.
pub proof fn law_scenes_are_painted_in_order(
    fl: Unit,
    o: Over,
    p: Seq<u8>,
    width: u32,
    height: u32,
    a: Seq<CmdModel>,
    b: Seq<CmdModel>,
    n: int,
)
    requires
        0 <= n <= b.len(),
    ensures
        painted_all(fl, o, p, width, height, a + b, a.len() + n) == painted_all(
            fl,
            o,
            painted_all(fl, o, p, width, height, a, a.len() as int),
            width,
            height,
            b,
            n,
        ),
    decreases n,
{
    if n > 0 {
        law_scenes_are_painted_in_order(fl, o, p, width, height, a, b, n - 1);
        assert((a + b)[a.len() + n - 1] == b[n - 1]);
    } else {
        lemma_prefix(fl, o, p, width, height, a, b, a.len() as int);
    }
}

proof fn lemma_prefix(
    fl: Unit,
    o: Over,
    p: Seq<u8>,
    width: u32,
    height: u32,
    a: Seq<CmdModel>,
    b: Seq<CmdModel>,
    n: int,
)
    requires
        0 <= n <= a.len(),
    ensures
        painted_all(fl, o, p, width, height, a + b, n) == painted_all(fl, o, p, width, height, a, n),
    decreases n,
{
    if n > 0 {
        lemma_prefix(fl, o, p, width, height, a, b, n - 1);
        assert((a + b)[n - 1] == a[n - 1]);
    }
}

/// The single one.
pub open spec fn one() -> u32 {
    0x3F80_0000
}

/// The unit knows what zero and one are to sums and products.
pub open spec fn knows_one(fl: Unit) -> bool {
    &&& said(fl, FloatQuery::SubSingle { x: one(), y: one() }) == 0
    &&& said(fl, FloatQuery::AddSingle { x: one(), y: 0 }) == one()
    &&& forall|x: u32| #[trigger] said(fl, FloatQuery::MulSingle { x, y: one() }) == x
    &&& forall|x: u32| #[trigger] said(fl, FloatQuery::MulSingle { x, y: 0 }) == 0
    &&& forall|x: u32| #[trigger] said(fl, FloatQuery::AddSingle { x, y: 0 }) == x
}

/// A colour that is fully opaque hides what is below it.
pub proof fn law_opaque_color_hides(fl: Unit, l: Light, s: u32, d: u32)
    requires
        knows_one(fl),
        s % 0x100 == 255,
        said(
            fl,
            FloatQuery::DivSingle { x: said(fl, FloatQuery::FromIntSingle { value: 255 }), y: 0x437F_0000 },
        ) == one(),
        l(
            LightOp::Packed {
                r: l(LightOp::Linear { packed: s, channel: 0 }),
                g: l(LightOp::Linear { packed: s, channel: 1 }),
                b: l(LightOp::Linear { packed: s, channel: 2 }),
                a: one(),
            },
        ) == s,
    ensures
        over(fl, l)(s, d) == s,
{
    let alpha = crate::canvas::opacity(fl, s);
    assert(alpha == one());
    assert forall|c: u8| #[trigger]
        crate::canvas::mixed(fl, l, s, d, c) == l(LightOp::Linear { packed: s, channel: c }) by {
        let a = l(LightOp::Linear { packed: s, channel: c });
        let b = l(LightOp::Linear { packed: d, channel: c });
        assert(said(fl, FloatQuery::MulSingle { x: a, y: one() }) == a);
        assert(said(fl, FloatQuery::MulSingle { x: b, y: 0 }) == 0);
        assert(said(fl, FloatQuery::AddSingle { x: a, y: 0 }) == a);
    }
    let b = l(LightOp::Linear { packed: d, channel: 3 });
    assert(said(fl, FloatQuery::MulSingle { x: b, y: 0 }) == 0);
}

proof fn lemma_bytes(packed: int, r: int, g: int, b: int, a: int)
    requires
        0 <= r < 256 && 0 <= g < 256 && 0 <= b < 256 && 0 <= a < 256,
        packed == rgba(r, g, b, a),
    ensures
        packed / 0x100_0000 == r,
        packed / 0x1_0000 % 0x100 == g,
        packed / 0x100 % 0x100 == b,
        packed % 0x100 == a,
{
}

/// A byte as a part of 255.
pub open spec fn part(fl: Unit, n: u8) -> u32 {
    said(
        fl,
        FloatQuery::DivSingle { x: said(fl, FloatQuery::FromIntSingle { value: n as i64 }), y: 0x437F_0000 },
    )
}

/// The channels of a colour are its four bytes, red first, each as a part of 255.
pub proof fn law_channels_are_the_bytes(fl: Unit, packed: u32, r: u8, g: u8, b: u8, a: u8)
    requires
        packed == rgba(r as int, g as int, b as int, a as int),
    ensures
        unpacked(fl, packed).r == part(fl, r),
        unpacked(fl, packed).g == part(fl, g),
        unpacked(fl, packed).b == part(fl, b),
        unpacked(fl, packed).a == part(fl, a),
{
    lemma_bytes(packed as int, r as int, g as int, b as int, a as int);
    let c = unpacked(fl, packed);
    assert(c.r == channel(fl, r as int));
    assert(c.g == channel(fl, g as int));
    assert(c.b == channel(fl, b as int));
    assert(c.a == channel(fl, a as int));
}

/// Below the knee of the curve a channel is a straight part of itself; above, what is asked of the
/// unit is the power of 2.4 of the channel and 0.055, as a part of 1.055.
pub proof fn law_light_follows_the_curve(fl: Unit, c: u32)
    ensures
        linear(fl, c) == if at_most(c, 0x3D25_AEE6) {
            said(fl, FloatQuery::DivSingle { x: c, y: 0x414E_B852 })
        } else {
            said(
                fl,
                FloatQuery::PowSingle {
                    x: said(
                        fl,
                        FloatQuery::DivSingle {
                            x: said(fl, FloatQuery::AddSingle { x: c, y: 0x3D61_47AE }),
                            y: 0x3F87_0A3D,
                        },
                    ),
                    y: 0x4019_999A,
                },
            )
        },
{
}

/// A gradient has the colour of its first stop up to there, and that of its last stop from there
/// on; what lies before zero is as at zero and what lies behind one as at one. One without stops
/// has no colour.
pub proof fn law_gradient_holds_its_ends(fl: Unit, stops: Seq<(u32, u32)>, t: u32)
    ensures
        stops.len() == 0 ==> stop_color(fl, stops, t) == 0,
        stops.len() > 0 && at_most(0, t) && at_most(t, one()) && at_most(t, stops[0].0) ==> stop_color(fl, stops, t)
            == stops[0].1,
        stops.len() > 0 && at_most(0, t) && at_most(t, one()) && !at_most(t, stops[0].0) && at_most(
            stops.last().0,
            t,
        ) ==> stop_color(fl, stops, t) == stops.last().1,
        at_most(t, 0) && t != 0x8000_0000 ==> stop_color(fl, stops, t) == stop_color(fl, stops, 0),
        at_most(one(), t) ==> stop_color(fl, stops, t) == stop_color(fl, stops, one()),
{
    lemma_held(t);
    lemma_held(0);
    lemma_held(one());
    if stops.len() > 0 {
        lemma_at_most(t, stops[0].0);
        lemma_at_most(stops.last().0, t);
    }
}

proof fn lemma_held(t: u32)
    ensures
        at_most(0, t) && at_most(t, one()) ==> clamp32(t, 0, one()) == t,
        at_most(t, 0) && t != 0x8000_0000 ==> clamp32(t, 0, one()) == 0,
        at_most(one(), t) ==> clamp32(t, 0, one()) == one(),
{
}

/// A solid fill has one colour everywhere.
pub proof fn law_solid_fill_is_one_color(fl: Unit, c: u32, u: u32, v: u32)
    ensures
        sampled(fl, FillModel::Solid(c), u, v) == c,
{
}

proof fn lemma_sum_of_squares(fl: Unit, x: u32, y: u32, p: u32, q: u32)
    requires
        adds_either_way(fl),
    ensures
        add32(fl, mul32(fl, x, p), mul32(fl, y, q)) == add32(fl, mul32(fl, y, q), mul32(fl, x, p)),
{
    let a = said(fl, FloatQuery::MulSingle { x, y: p });
    let b = said(fl, FloatQuery::MulSingle { x: y, y: q });
    assert(said(fl, FloatQuery::AddSingle { x: a, y: b }) == said(fl, FloatQuery::AddSingle { x: b, y: a }));
}

/// A linear gradient treats both axes alike: where the axes of every point are exchanged, the
/// offset stays.
pub proof fn law_linear_gradient_treats_axes_alike(fl: Unit, start: (u32, u32), end: (u32, u32), u: u32, v: u32)
    requires
        adds_either_way(fl),
    ensures
        linear_offset(fl, start, end, u, v) == linear_offset(fl, (start.1, start.0), (end.1, end.0), v, u),
{
    let dx = sub32(fl, end.0, start.0);
    let dy = sub32(fl, end.1, start.1);
    lemma_sum_of_squares(fl, dx, dy, dx, dy);
    lemma_sum_of_squares(fl, sub32(fl, u, start.0), sub32(fl, v, start.1), dx, dy);
}

/// A radial gradient treats both axes alike.
pub proof fn law_radial_gradient_treats_axes_alike(fl: Unit, center: (u32, u32), near: u32, far: u32, u: u32, v: u32)
    requires
        adds_either_way(fl),
    ensures
        radial_offset(fl, center, near, far, u, v) == radial_offset(fl, (center.1, center.0), near, far, v, u),
{
    let du = sub32(fl, u, center.0);
    let dv = sub32(fl, v, center.1);
    lemma_sum_of_squares(fl, du, dv, du, dv);
}

/// The unit knows what zero is to differences, products and quotients, and that a number is one of
/// itself.
pub open spec fn knows_zero(fl: Unit) -> bool {
    &&& forall|x: u32| #[trigger] said(fl, FloatQuery::SubSingle { x, y: x }) == 0
    &&& forall|y: u32| #[trigger] said(fl, FloatQuery::MulSingle { x: 0, y }) == 0
    &&& said(fl, FloatQuery::AddSingle { x: 0, y: 0 }) == 0
    &&& forall|y: u32| !at_most(y, 0) ==> #[trigger] said(fl, FloatQuery::DivSingle { x: 0, y }) == 0
    &&& forall|y: u32| !at_most(y, 0) ==> #[trigger] said(fl, FloatQuery::DivSingle { x: y, y }) == one()
}

/// A linear gradient is at zero where it starts and at one where it ends.
pub proof fn law_linear_gradient_runs_from_start_to_end(fl: Unit, start: (u32, u32), end: (u32, u32))
    requires
        knows_zero(fl),
        ({
            let dx = said(fl, FloatQuery::SubSingle { x: end.0, y: start.0 });
            let dy = said(fl, FloatQuery::SubSingle { x: end.1, y: start.1 });
            let xx = said(fl, FloatQuery::MulSingle { x: dx, y: dx });
            let yy = said(fl, FloatQuery::MulSingle { x: dy, y: dy });
            !at_most(said(fl, FloatQuery::AddSingle { x: xx, y: yy }), 0x3400_0000)
        }),
    ensures
        linear_offset(fl, start, end, start.0, start.1) == 0,
        linear_offset(fl, start, end, end.0, end.1) == one(),
{
    let dx = said(fl, FloatQuery::SubSingle { x: end.0, y: start.0 });
    let dy = said(fl, FloatQuery::SubSingle { x: end.1, y: start.1 });
    let xx = said(fl, FloatQuery::MulSingle { x: dx, y: dx });
    let yy = said(fl, FloatQuery::MulSingle { x: dy, y: dy });
    let s = said(fl, FloatQuery::AddSingle { x: xx, y: yy });
    assert(!at_most(s, 0));
    assert(said(fl, FloatQuery::SubSingle { x: start.0, y: start.0 }) == 0);
    assert(said(fl, FloatQuery::SubSingle { x: start.1, y: start.1 }) == 0);
    assert(said(fl, FloatQuery::MulSingle { x: 0, y: dx }) == 0);
    assert(said(fl, FloatQuery::MulSingle { x: 0, y: dy }) == 0);
    assert(said(fl, FloatQuery::DivSingle { x: 0, y: s }) == 0);
    assert(said(fl, FloatQuery::DivSingle { x: s, y: s }) == one());
}

} // verus!
