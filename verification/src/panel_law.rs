//! How corners are rounded, which light a colour gives, and how panels are frosted.
use vstd::prelude::*;

use crate::blur::{sigma, taps};
use crate::color::{linear, unpacked};
use crate::float::{add32, div32, int32, max32, min32, mul32, truncated32, FloatQuery, Unit};
use crate::frame::{
    backdrop_of, byte_color, fill_job, frost_job, linear_color, next_panel, passes_from, surface_of, text_job, FillJob,
    Surface,
};
use crate::gesture_law::{at_most, lemma_at_most, numeric};
use crate::place_law::said;
use crate::scene::CmdModel;

verus! {

/// The lesser of two numbers; what is no number yields to the other.
#[verifier::opaque]
pub open spec fn lesser(a: u32, b: u32) -> u32 {
    if !numeric(a) || (numeric(b) && !at_most(a, b)) {
        b
    } else {
        a
    }
}

/// The number, or zero where it lies below.
#[verifier::opaque]
pub open spec fn upward(x: u32) -> u32 {
    if at_most(0, x) {
        x
    } else {
        0
    }
}

proof fn lemma_lesser(a: u32, b: u32)
    ensures
        min32(a, b) == lesser(a, b),
        max32(a, 0) == upward(a),
{
    reveal(lesser);
    reveal(upward);
    lemma_at_most(a, b);
    lemma_at_most(b, a);
    lemma_at_most(0, a);
    lemma_at_most(a, 0);
}

/// A product.
#[verifier::opaque]
pub open spec fn times(fl: Unit, x: u32, y: u32) -> u32 {
    said(fl, FloatQuery::MulSingle { x, y })
}

/// A quotient.
#[verifier::opaque]
pub open spec fn over(fl: Unit, x: u32, y: u32) -> u32 {
    said(fl, FloatQuery::DivSingle { x, y })
}

/// A sum.
#[verifier::opaque]
pub open spec fn plus(fl: Unit, x: u32, y: u32) -> u32 {
    said(fl, FloatQuery::AddSingle { x, y })
}

/// A count as a number.
#[verifier::opaque]
pub open spec fn counted(fl: Unit, n: u32) -> u32 {
    said(fl, FloatQuery::FromIntSingle { value: n as i64 })
}

proof fn lemma_asked(fl: Unit, x: u32, y: u32)
    ensures
        mul32(fl, x, y) == times(fl, x, y),
        div32(fl, x, y) == over(fl, x, y),
        add32(fl, x, y) == plus(fl, x, y),
        int32(fl, x as i64) == counted(fl, x),
{
    reveal(times);
    reveal(over);
    reveal(plus);
    reveal(counted);
}

/// The corners of a rectangle are rounded by its own radius, at most by half of its shorter side.
pub proof fn law_corners_are_rounded_to_the_half(fl: Unit, c: CmdModel, i: usize)
    ensures
        c matches CmdModel::FilledRect { w, h, corner_radius, .. } ==> (fill_job(fl, c, i) matches Some(
            FillJob::Rect(j),
        ) ==> j.radius == lesser(upward(corner_radius), over(fl, lesser(w, h), 0x4000_0000))),
{
    if let CmdModel::FilledRect { w, h, corner_radius, .. } = c {
        lemma_lesser(w, h);
        lemma_asked(fl, lesser(w, h), 0x4000_0000);
        lemma_lesser(corner_radius, 0);
        lemma_lesser(upward(corner_radius), over(fl, lesser(w, h), 0x4000_0000));
    }
}

/// A colour gives the light of its three channels, each by the curve, and is as opaque as it says;
/// by its bytes it is what its channels are of 255.
pub proof fn law_color_is_its_light(fl: Unit, packed: u32)
    ensures
        ({
            let c = unpacked(fl, packed);
            let of = |x: u32| truncated32(fl, times(fl, x, 0x437F_0000), 0, 255) as u32;
            &&& linear_color(fl, packed) == (linear(fl, c.r), linear(fl, c.g), linear(fl, c.b), c.a)
            &&& byte_color(fl, packed) == (of(c.r), of(c.g), of(c.b), of(c.a))
        }),
{
    let c = unpacked(fl, packed);
    lemma_asked(fl, c.r, 0x437F_0000);
    lemma_asked(fl, c.g, 0x437F_0000);
    lemma_asked(fl, c.b, 0x437F_0000);
    lemma_asked(fl, c.a, 0x437F_0000);
}

/// The lines of a text are six fifths as high as the text, and it has its own colour.
pub proof fn law_text_has_its_lines_and_color(fl: Unit, s: Surface, c: CmdModel)
    ensures
        c matches CmdModel::Text { size, color, .. } ==> (text_job(fl, s, c) matches Some(j) && j.line_height == times(
            fl,
            size,
            0x3F99_999A,
        ) && j.color == byte_color(fl, color)),
{
    reveal(times);
}

/// A surface is at least one pixel wide and high and as many units as its pixels are over its scale;
/// its backdrop is half as wide and high, and at least one pixel.
pub proof fn law_surface_has_its_size(fl: Unit, width: u32, height: u32, scale: u64)
    ensures
        ({
            let s = surface_of(fl, width, height, scale);
            let b = backdrop_of(s);
            &&& s.width >= 1 && s.height >= 1 && b.0 >= 1 && b.1 >= 1
            &&& width >= 1 ==> s.width == width
            &&& height >= 1 ==> s.height == height
            &&& s.scale == said(fl, FloatQuery::Narrow { double: scale })
            &&& s.logical_width == over(fl, counted(fl, s.width), s.scale)
            &&& s.logical_height == over(fl, counted(fl, s.height), s.scale)
            &&& s.width >= 2 ==> s.width - 1 <= 2 * b.0 <= s.width
            &&& s.height >= 2 ==> s.height - 1 <= 2 * b.1 <= s.height
        }),
{
    reveal(over);
    reveal(counted);
}

/// A panel with an extent is frosted and one without is not, and nothing else is.
pub proof fn law_panel_with_an_extent_is_frosted(fl: Unit, s: Surface, c: CmdModel)
    ensures
        !(c is FrostedRect) ==> frost_job(fl, s, c) is None,
        c matches CmdModel::FrostedRect { w, h, .. } ==> (frost_job(fl, s, c) is Some <==> !at_most(w, 0) && !at_most(
            h,
            0,
        )),
{
    if let CmdModel::FrostedRect { w, h, .. } = c {
        lemma_at_most(w, 0);
        lemma_at_most(h, 0);
    }
}

/// A panel is frosted in its frame at the scale of the surface and in its own tint.
pub proof fn law_panel_is_frosted_in_its_frame(fl: Unit, s: Surface, c: CmdModel)
    ensures
        c matches CmdModel::FrostedRect { x, y, w, h, tint, .. } ==> (frost_job(fl, s, c) matches Some(j) ==> {
            &&& j.min == (times(fl, x, s.scale), times(fl, y, s.scale))
            &&& j.max == (plus(fl, j.min.0, times(fl, w, s.scale)), plus(fl, j.min.1, times(fl, h, s.scale)))
            &&& j.tint == linear_color(fl, tint)
        }),
{
    if let CmdModel::FrostedRect { x, y, w, h, .. } = c {
        lemma_asked(fl, x, s.scale);
        lemma_asked(fl, y, s.scale);
        lemma_asked(fl, w, s.scale);
        lemma_asked(fl, h, s.scale);
        lemma_asked(fl, times(fl, x, s.scale), times(fl, w, s.scale));
        lemma_asked(fl, times(fl, y, s.scale), times(fl, h, s.scale));
    }
}

/// The corners of a panel are rounded by its own radius at the scale of the surface, at most by half
/// of its shorter side.
pub proof fn law_panel_has_its_corners(fl: Unit, s: Surface, c: CmdModel)
    ensures
        c matches CmdModel::FrostedRect { w, h, corner_radius, .. } ==> (frost_job(fl, s, c) matches Some(j)
            ==> j.corner_radius == lesser(
            times(fl, upward(corner_radius), s.scale),
            over(fl, lesser(times(fl, w, s.scale), times(fl, h, s.scale)), 0x4000_0000),
        )),
{
    if let CmdModel::FrostedRect { w, h, corner_radius, .. } = c {
        let (pw, ph) = (times(fl, w, s.scale), times(fl, h, s.scale));
        lemma_asked(fl, w, s.scale);
        lemma_asked(fl, h, s.scale);
        lemma_lesser(pw, ph);
        lemma_asked(fl, lesser(pw, ph), 0x4000_0000);
        lemma_lesser(corner_radius, 0);
        lemma_asked(fl, upward(corner_radius), s.scale);
        lemma_lesser(times(fl, upward(corner_radius), s.scale), over(fl, lesser(pw, ph), 0x4000_0000));
    }
}

/// A panel blurs the backdrop of its surface by its own radius, at half the size.
pub proof fn law_panel_blurs_by_its_radius(fl: Unit, s: Surface, c: CmdModel)
    ensures
        c matches CmdModel::FrostedRect { blur_radius, .. } ==> (frost_job(fl, s, c) matches Some(j) ==> {
            let b = backdrop_of(s);
            let spread = sigma(fl, over(fl, blur_radius, counted(fl, 2)));
            &&& j.resolution == (counted(fl, s.width), counted(fl, s.height))
            &&& j.backdrop == (counted(fl, b.0), counted(fl, b.1))
            &&& j.texel == (over(fl, 0x3F80_0000, j.backdrop.0), over(fl, 0x3F80_0000, j.backdrop.1))
            &&& j.edge == 0x3DF5_C28F
            &&& j.sigma == spread && j.taps == taps(fl, spread)
        }),
{
    if let CmdModel::FrostedRect { blur_radius, .. } = c {
        let b = backdrop_of(s);
        lemma_asked(fl, s.width, 0);
        lemma_asked(fl, s.height, 0);
        lemma_asked(fl, b.0, 0);
        lemma_asked(fl, b.1, 0);
        lemma_asked(fl, 2, 0);
        lemma_asked(fl, blur_radius, counted(fl, 2));
        lemma_asked(fl, 0x3F80_0000, counted(fl, b.0));
        lemma_asked(fl, 0x3F80_0000, counted(fl, b.1));
    }
}

/// The panels among the commands from a place on.
pub open spec fn panels(cmds: Seq<CmdModel>, i: int) -> Seq<CmdModel>
    decreases cmds.len() - i,
{
    if 0 <= i < cmds.len() {
        if cmds[i] is FrostedRect {
            seq![cmds[i]] + panels(cmds, i + 1)
        } else {
            panels(cmds, i + 1)
        }
    } else {
        Seq::empty()
    }
}

proof fn lemma_next(cmds: Seq<CmdModel>, i: int)
    requires
        0 <= i <= cmds.len(),
    ensures
        i <= next_panel(cmds, i) <= cmds.len(),
        next_panel(cmds, i) < cmds.len() ==> panels(cmds, i) == seq![cmds[next_panel(cmds, i)]] + panels(
            cmds,
            next_panel(cmds, i) + 1,
        ),
        next_panel(cmds, i) == cmds.len() ==> panels(cmds, i) == Seq::<CmdModel>::empty(),
    decreases cmds.len() - i,
{
    if i < cmds.len() && !(cmds[i] is FrostedRect) {
        lemma_next(cmds, i + 1);
    }
}

/// The passes but the last stand before the panels, one for each in the order of the scene, and each
/// frosts its own; the last frosts none.
pub proof fn law_each_panel_has_its_pass(fl: Unit, s: Surface, cmds: Seq<CmdModel>, i: int)
    requires
        0 <= i <= cmds.len(),
    ensures
        ({
            let ps = passes_from(fl, s, cmds, i);
            let w = panels(cmds, i);
            &&& ps.len() == w.len() + 1
            &&& forall|k: int| 0 <= k < w.len() ==> (#[trigger] ps[k]).frost == frost_job(fl, s, w[k])
            &&& ps.last().frost is None
        }),
    decreases cmds.len() - i,
{
    lemma_next(cmds, i);
    let j = next_panel(cmds, i);
    let ps = passes_from(fl, s, cmds, i);
    let w = panels(cmds, i);
    if j < cmds.len() {
        law_each_panel_has_its_pass(fl, s, cmds, j + 1);
        let qs = passes_from(fl, s, cmds, j + 1);
        let v = panels(cmds, j + 1);
        assert(w.len() == v.len() + 1 && ps.len() == qs.len() + 1);
        assert forall|k: int| 0 <= k < w.len() implies (#[trigger] ps[k]).frost == frost_job(fl, s, w[k]) by {
            if k > 0 {
                assert(ps[k] == qs[k - 1] && w[k] == v[k - 1]);
            }
        }
        assert(ps.last() == qs.last());
    }
}

} // verus!
