//! A software canvas for previews and screenshots: it paints a scene into bytes of red, green,
//! blue and alpha.
use vstd::prelude::*;
use vstd::utf8::encode_utf8;

use crate::float::{
    add32, difference, div32, greater_of, int32, max32, mul32, of_int, product, ratio, steady, sub32, sum,
    to_i32_single, truncated32, unit, FloatOp, Unit,
};
use crate::renderer::RenderError;
use crate::scene::{cmd_models, representative, CmdModel, DrawCmd, Scene, BRIGHTEST, ONE};

verus! {

/// A step between packed colours and linear light, which is done outside: to linear light for one
/// of the four channels of a packed colour, and back for all four.
#[derive(Debug, Clone, Copy, PartialEq, Eq)]
pub enum LightOp {
    Linear { packed: u32, channel: u8 },
    Packed { r: u32, g: u32, b: u32, a: u32 },
}

/// The conversion takes every step and always answers a step alike.
pub open spec fn converts<L: Fn(LightOp) -> u32>(l: L) -> bool {
    &&& forall|op: LightOp| #[trigger] call_requires(l, (op,))
    &&& forall|op: LightOp, a: u32, b: u32| #[trigger]
        call_ensures(l, (op,), a) && #[trigger] call_ensures(l, (op,), b) ==> a == b
}

/// A conversion as a mathematical function.
pub type Light = spec_fn(LightOp) -> u32;

/// The function that a conversion computes.
pub open spec fn light<L: Fn(LightOp) -> u32>(l: L) -> Light {
    |op: LightOp| choose|r: u32| call_ensures(l, (op,), r)
}

fn convert<L: Fn(LightOp) -> u32>(l: &L, op: LightOp) -> (r: u32)
    requires
        converts(*l),
    ensures
        r == light(*l)(op),
{
    l(op)
}

/// A colour over a colour.
pub type Over = spec_fn(u32, u32) -> u32;

/// How opaque a packed colour is, from zero to one.
pub open spec fn opacity(fl: Unit, color: u32) -> u32 {
    div32(fl, int32(fl, (color % 0x100) as i64), BRIGHTEST)
}

/// One channel of a colour over a colour in linear light: each by its share.
pub open spec fn mixed(fl: Unit, l: Light, s: u32, d: u32, channel: u8) -> u32 {
    let alpha = opacity(fl, s);
    add32(
        fl,
        mul32(fl, l(LightOp::Linear { packed: s, channel }), alpha),
        mul32(fl, l(LightOp::Linear { packed: d, channel }), sub32(fl, ONE, alpha)),
    )
}

/// A colour over a colour: both in linear light, each channel by its share, and back.
pub open spec fn over(fl: Unit, l: Light) -> Over {
    |s: u32, d: u32|
        l(
            LightOp::Packed {
                r: mixed(fl, l, s, d, 0),
                g: mixed(fl, l, s, d, 1),
                b: mixed(fl, l, s, d, 2),
                a: add32(
                    fl,
                    opacity(fl, s),
                    mul32(fl, l(LightOp::Linear { packed: d, channel: 3 }), sub32(fl, ONE, opacity(fl, s))),
                ),
            },
        )
}

fn mix<F: Fn(&FloatOp) -> Option<u64>, L: Fn(LightOp) -> u32>(
    s: u32,
    d: u32,
    channel: u8,
    alpha: u32,
    fl: &F,
    l: &L,
) -> (r: u32)
    requires
        steady(*fl),
        converts(*l),
        alpha == opacity(unit(*fl), s),
    ensures
        r == mixed(unit(*fl), light(*l), s, d, channel),
{
    sum(
        fl,
        product(fl, convert(l, LightOp::Linear { packed: s, channel }), alpha),
        product(fl, convert(l, LightOp::Linear { packed: d, channel }), difference(fl, ONE, alpha)),
    )
}

fn compose<F: Fn(&FloatOp) -> Option<u64>, L: Fn(LightOp) -> u32>(fl: &F, l: &L, s: u32, d: u32) -> (r: u32)
    requires
        steady(*fl),
        converts(*l),
    ensures
        r == over(unit(*fl), light(*l))(s, d),
{
    let alpha: u32 = ratio(fl, of_int(fl, (s % 0x100) as i64), BRIGHTEST);
    let rest: u32 = difference(fl, ONE, alpha);
    let r: u32 = mix(s, d, 0, alpha, fl, l);
    let g: u32 = mix(s, d, 1, alpha, fl, l);
    let b: u32 = mix(s, d, 2, alpha, fl, l);
    let a: u32 = sum(fl, alpha, product(fl, convert(l, LightOp::Linear { packed: d, channel: 3 }), rest));
    convert(l, LightOp::Packed { r, g, b, a })
}

/// A pixel of the buffer as a packed colour.
pub open spec fn pixel(p: Seq<u8>, k: int) -> u32 {
    (p[4 * k] * 0x100_0000 + p[4 * k + 1] * 0x1_0000 + p[4 * k + 2] * 0x100 + p[4 * k + 3]) as u32
}

/// One of the four bytes of a packed colour.
pub open spec fn byte_of(c: u32, i: int) -> u8 {
    if i == 0 {
        (c / 0x100_0000) as u8
    } else if i == 1 {
        (c / 0x1_0000 % 0x100) as u8
    } else if i == 2 {
        (c / 0x100 % 0x100) as u8
    } else {
        (c % 0x100) as u8
    }
}

/// The pixels that a rectangle covers: columns from `x0` to `x1`, rows from `y0` to `y1`.
pub struct Cover {
    pub x0: int,
    pub y0: int,
    pub x1: int,
    pub y1: int,
}

/// The pixel lies in the rectangle, on a canvas of the given width.
pub open spec fn covers(c: Cover, width: int, k: int) -> bool {
    c.x0 <= k % width < c.x1 && c.y0 <= k / width < c.y1
}

/// The buffer with a colour laid over the pixels that a rectangle covers.
pub open spec fn covered(p: Seq<u8>, width: int, c: Cover, color: u32, o: Over) -> Seq<u8> {
    Seq::new(
        p.len(),
        |i: int|
            if covers(c, width, i / 4) {
                byte_of(o(color, pixel(p, i / 4)), i % 4)
            } else {
                p[i]
            },
    )
}

/// The pixels that a rectangle covers on a canvas: those from its corner, rounded down and not
/// before the canvas, to its far corner, rounded towards zero and not behind the canvas.
pub open spec fn cover_of(fl: Unit, width: u32, height: u32, x: u32, y: u32, w: u32, h: u32) -> Cover {
    let lo = i32::MIN as int;
    let hi = i32::MAX as int;
    let x1 = truncated32(fl, add32(fl, x, w), lo, hi);
    let y1 = truncated32(fl, add32(fl, y, h), lo, hi);
    Cover {
        x0: truncated32(fl, max32(x, 0), lo, hi),
        y0: truncated32(fl, max32(y, 0), lo, hi),
        x1: if x1 < width as i32 {
            x1
        } else {
            width as i32 as int
        },
        y1: if y1 < height as i32 {
            y1
        } else {
            height as i32 as int
        },
    }
}

/// The rectangle is on the canvas: it starts within it and is not empty.
pub open spec fn on_canvas(c: Cover) -> bool {
    0 <= c.x0 < c.x1 && 0 <= c.y0 < c.y1
}

/// The buffer after a rectangle was filled. A colour without alpha paints nothing.
pub open spec fn filled(
    fl: Unit,
    o: Over,
    p: Seq<u8>,
    width: u32,
    height: u32,
    x: u32,
    y: u32,
    w: u32,
    h: u32,
    color: u32,
) -> Seq<u8> {
    let c = cover_of(fl, width, height, x, y, w, h);
    if color % 0x100 == 0 || !on_canvas(c) {
        p
    } else {
        covered(p, width as int, c, color, o)
    }
}

/// Six tenths, the width of a letter by its size.
pub const LETTER_WIDTH: u32 = 0x3F19_999A;

/// The least width of a text, 4.
pub const LEAST_TEXT: u32 = 0x4080_0000;

/// What is added to the size of a text for its height, 2.
pub const TEXT_MARGIN: u32 = 0x4000_0000;

/// The buffer after one command. A text is a bar of its colour, a frosted panel is its tint, a
/// shape is its frame in one colour, and a path leaves no mark.
pub open spec fn painted(fl: Unit, o: Over, p: Seq<u8>, width: u32, height: u32, c: CmdModel) -> Seq<u8> {
    match c {
        CmdModel::FilledRect { x, y, w, h, color, .. } => filled(fl, o, p, width, height, x, y, w, h, color),
        CmdModel::Text { x, y, content, size, color } => {
            let letters = int32(fl, encode_utf8(content).len() as usize as i64);
            let w = max32(mul32(fl, mul32(fl, letters, size), LETTER_WIDTH), LEAST_TEXT);
            filled(fl, o, p, width, height, x, y, w, add32(fl, size, TEXT_MARGIN), color)
        },
        CmdModel::FrostedRect { x, y, w, h, tint, .. } => filled(
            fl,
            o,
            p,
            width,
            height,
            x,
            y,
            w,
            h,
            (tint / 0x100 * 0x100 + 0xCC) as u32,
        ),
        CmdModel::FilledShape { x, y, w, h, fill, .. } => filled(
            fl,
            o,
            p,
            width,
            height,
            x,
            y,
            w,
            h,
            representative(fill),
        ),
        CmdModel::Path { .. } => p,
    }
}

/// The buffer after the first `n` commands, from `p`.
pub open spec fn painted_all(
    fl: Unit,
    o: Over,
    p: Seq<u8>,
    width: u32,
    height: u32,
    s: Seq<CmdModel>,
    n: int,
) -> Seq<u8>
    decreases n,
{
    if n <= 0 {
        p
    } else {
        painted(fl, o, painted_all(fl, o, p, width, height, s, n - 1), width, height, s[n - 1])
    }
}

/// Filling a rectangle keeps the size of the buffer and every byte of the pixels that the
/// rectangle does not cover.
pub proof fn law_outside_stays(
    fl: Unit,
    o: Over,
    p: Seq<u8>,
    width: u32,
    height: u32,
    x: u32,
    y: u32,
    w: u32,
    h: u32,
    color: u32,
)
    ensures
        filled(fl, o, p, width, height, x, y, w, h, color).len() == p.len(),
        forall|i: int|
            0 <= i < p.len() && !covers(cover_of(fl, width, height, x, y, w, h), width as int, i / 4)
                ==> #[trigger] filled(fl, o, p, width, height, x, y, w, h, color)[i] == p[i],
{
}

/// Painting a scene keeps the size of the buffer.
pub proof fn law_painting_keeps_size(
    fl: Unit,
    o: Over,
    p: Seq<u8>,
    width: u32,
    height: u32,
    s: Seq<CmdModel>,
    n: int,
)
    ensures
        painted_all(fl, o, p, width, height, s, n).len() == p.len(),
    decreases n,
{
    if n > 0 {
        law_painting_keeps_size(fl, o, p, width, height, s, n - 1);
    }
}

/// A buffer of nothing but zeros.
pub open spec fn blank(width: u32, height: u32) -> Seq<u8> {
    Seq::new((width * height * 4) as nat, |i: int| 0u8)
}

/// The software canvas.
#[derive(Debug)]
pub struct CanvasRenderer {
    pub width: u32,
    pub height: u32,
    /// Four bytes a pixel, rows from the top.
    pub pixels: Vec<u8>,
}

fn zeros(n: u32) -> (r: Vec<u8>)
    ensures
        r@ == Seq::new(n as nat, |i: int| 0u8),
{
    let mut r: Vec<u8> = Vec::new();
    let mut i: u32 = 0;
    while i < n
        invariant
            i <= n,
            r@ == Seq::new(i as nat, |j: int| 0u8),
        decreases n - i,
    {
        r.push(0);
        i += 1;
        assert(r@ =~= Seq::new(i as nat, |j: int| 0u8));
    }
    r
}

fn area(width: u32, height: u32) -> (r: u32)
    requires
        width * height * 4 <= u32::MAX,
    ensures
        r == width * height * 4,
{
    assert(width * height <= width * height * 4);
    width * height * 4
}

/// Lays a colour over the pixels from `from` on, `count` of them.
fn fill_span<F: Fn(&FloatOp) -> Option<u64>, L: Fn(LightOp) -> u32>(
    pixels: &mut Vec<u8>,
    from: usize,
    count: usize,
    color: u32,
    fl: &F,
    l: &L,
)
    requires
        steady(*fl),
        converts(*l),
        4 * (from + count) <= old(pixels)@.len(),
    ensures
        final(pixels)@ == Seq::new(
            old(pixels)@.len(),
            |i: int|
                if from <= i / 4 < from + count {
                    byte_of(over(unit(*fl), light(*l))(color, pixel(old(pixels)@, i / 4)), i % 4)
                } else {
                    old(pixels)@[i]
                },
        ),
{
    let ghost p = pixels@;
    let size: usize = pixels.len();
    let mut k: usize = from;
    while k < from + count
        invariant
            steady(*fl),
            converts(*l),
            size == p.len(),
            pixels@.len() == p.len(),
            from <= k <= from + count,
            4 * (from + count) <= p.len(),
            forall|i: int|
                0 <= i < p.len() ==> #[trigger] pixels@[i] == if from <= i / 4 < k {
                    byte_of(over(unit(*fl), light(*l))(color, pixel(p, i / 4)), i % 4)
                } else {
                    p[i]
                },
        decreases from + count - k,
    {
        let at: usize = 4 * k;
        let dst: u32 = (pixels[at] as u32) * 0x100_0000 + (pixels[at + 1] as u32) * 0x1_0000 + (pixels[at
            + 2] as u32) * 0x100 + (pixels[at + 3] as u32);
        assert(dst == pixel(p, k as int));
        let c: u32 = compose(fl, l, color, dst);
        pixels.set(at, (c / 0x100_0000) as u8);
        pixels.set(at + 1, (c / 0x1_0000 % 0x100) as u8);
        pixels.set(at + 2, (c / 0x100 % 0x100) as u8);
        pixels.set(at + 3, (c % 0x100) as u8);
        k += 1;
    }
    assert(pixels@ =~= Seq::new(
        p.len(),
        |i: int|
            if from <= i / 4 < from + count {
                byte_of(over(unit(*fl), light(*l))(color, pixel(p, i / 4)), i % 4)
            } else {
                p[i]
            },
    ));
}

/// The pixel `k` lies in row `y` between two columns exactly when it lies in that stretch of
/// pixels.
proof fn lemma_row(width: int, y: int, x0: int, x1: int, k: int)
    requires
        0 <= k,
        0 <= y,
        0 <= x0 <= x1 <= width,
        0 < width,
    ensures
        (k / width == y && x0 <= k % width < x1) <==> (y * width + x0 <= k < y * width + x1),
{
    vstd::arithmetic::div_mod::lemma_fundamental_div_mod(k, width);
    if y * width + x0 <= k < y * width + x1 {
        vstd::arithmetic::div_mod::lemma_fundamental_div_mod_converse(k, width, y, k - y * width);
    }
    assert(width * (k / width) == (k / width) * width) by (nonlinear_arith);
}

impl CanvasRenderer {
    /// The size of the canvas in pixels.
    pub open spec fn size(&self) -> (u32, u32) {
        (self.width, self.height)
    }

    /// The buffer holds the pixels of the canvas.
    pub open spec fn sound(&self) -> bool {
        &&& self.size().0 * self.size().1 * 4 <= u32::MAX
        &&& self.pixels@.len() == self.size().0 * self.size().1 * 4
    }

    /// A blank canvas.
    pub fn new(width: u32, height: u32) -> (r: CanvasRenderer)
        requires
            width * height * 4 <= u32::MAX,
        ensures
            r.sound(),
            r.size() == (width, height),
            r.pixels@ == blank(width, height),
    {
        CanvasRenderer { width, height, pixels: zeros(area(width, height)) }
    }

    /// Makes the canvas another size, and blank.
    pub fn resize(&mut self, width: u32, height: u32)
        requires
            width * height * 4 <= u32::MAX,
        ensures
            final(self).sound(),
            final(self).size() == (width, height),
            final(self).pixels@ == blank(width, height),
    {
        self.width = width;
        self.height = height;
        self.pixels = zeros(area(width, height));
    }

    fn fill_rect<F: Fn(&FloatOp) -> Option<u64>, L: Fn(LightOp) -> u32>(
        &mut self,
        x: u32,
        y: u32,
        w: u32,
        h: u32,
        color: u32,
        fl: &F,
        l: &L,
    )
        requires
            steady(*fl),
            converts(*l),
            old(self).sound(),
        ensures
            final(self).sound(),
            final(self).size() == old(self).size(),
            final(self).pixels@ == filled(
                unit(*fl),
                over(unit(*fl), light(*l)),
                old(self).pixels@,
                old(self).size().0,
                old(self).size().1,
                x,
                y,
                w,
                h,
                color,
            ),
    {
        if color % 0x100 == 0 {
            return;
        }
        let x0: i32 = to_i32_single(fl, greater_of(x, 0));
        let y0: i32 = to_i32_single(fl, greater_of(y, 0));
        let xe: i32 = to_i32_single(fl, sum(fl, x, w));
        let ye: i32 = to_i32_single(fl, sum(fl, y, h));
        let x1: i32 = if xe < self.width as i32 {
            xe
        } else {
            self.width as i32
        };
        let y1: i32 = if ye < self.height as i32 {
            ye
        } else {
            self.height as i32
        };
        let ghost c = cover_of(unit(*fl), self.width, self.height, x, y, w, h);
        if x1 <= x0 || y1 <= y0 || x0 < 0 || y0 < 0 {
            return;
        }
        assert(on_canvas(c));
        proof {
            let wide = self.width;
            let high = self.height;
            assert(wide as i32 > 0 ==> wide as i32 == wide) by (bit_vector);
            assert(high as i32 > 0 ==> high as i32 == high) by (bit_vector);
        }
        let ghost p = self.pixels@;
        let ghost width = self.width as int;
        let ghost height = self.height as int;
        let count: usize = (x1 - x0) as usize;
        let mut row: u32 = y0 as u32;
        assert(self.pixels@ =~= covered(p, width, Cover { y1: y0 as int, ..c }, color, over(unit(*fl), light(*l))));
        while row < y1 as u32
            invariant
                steady(*fl),
                converts(*l),
                self.sound(),
                self.size() == old(self).size(),
                self.width == width,
                self.height == height,
                p.len() == width * height * 4,
                c.x0 == x0,
                c.y0 == y0,
                c.x1 == x1,
                c.y1 == y1,
                0 <= x0 < x1 <= width,
                0 <= y0 < y1 <= height,
                count == x1 - x0,
                y0 <= row <= y1,
                self.pixels@ == covered(p, width, Cover { y1: row as int, ..c }, color, over(unit(*fl), light(*l))),
            decreases y1 - row,
        {
            proof {
                assert((row + 1) * width <= height * width) by (nonlinear_arith)
                    requires
                        row + 1 <= height,
                        width >= 0,
                ;
                assert((row + 1) * width == row * width + width) by (nonlinear_arith);
                assert(width * height == height * width) by (nonlinear_arith);
                assert(row * width >= 0) by (nonlinear_arith)
                    requires
                        row >= 0,
                        width >= 0,
                ;
            }
            let from: u32 = row * self.width + x0 as u32;
            let ghost was = self.pixels@;
            fill_span(&mut self.pixels, from as usize, count, color, fl, l);
            proof {
                let now = covered(p, width, Cover { y1: row + 1, ..c }, color, over(unit(*fl), light(*l)));
                assert forall|i: int| 0 <= i < p.len() implies #[trigger] self.pixels@[i] == now[i] by {
                    let k = i / 4;
                    lemma_row(width, row as int, x0 as int, x1 as int, k);
                    if from <= k < from + count {
                        assert(pixel(was, k) == pixel(p, k)) by {
                            assert(k / width == row);
                            assert forall|j: int| 4 * k <= j < 4 * k + 4 implies was[j] == p[j] by {
                                assert(j / 4 == k);
                            }
                        }
                    }
                }
                assert(self.pixels@ =~= now);
            }
            row += 1;
        }
        assert(Cover { y1: row as int, ..c } == c);
    }

    /// Paints a scene on a canvas that is blank at first, command by command.
    pub fn render<F: Fn(&FloatOp) -> Option<u64>, L: Fn(LightOp) -> u32>(
        &mut self,
        scene: &Scene,
        fl: &F,
        l: &L,
    ) -> (r: Result<(), RenderError>)
        requires
            steady(*fl),
            converts(*l),
            old(self).sound(),
        ensures
            r is Ok,
            final(self).sound(),
            final(self).size() == old(self).size(),
            final(self).pixels@ == painted_all(
                unit(*fl),
                over(unit(*fl), light(*l)),
                blank(old(self).size().0, old(self).size().1),
                old(self).size().0,
                old(self).size().1,
                cmd_models(scene@),
                scene@.len() as int,
            ),
    {
        self.pixels = zeros(area(self.width, self.height));
        let ghost empty = self.pixels@;
        let ghost all = cmd_models(scene@);
        let mut i: usize = 0;
        while i < scene.len()
            invariant
                steady(*fl),
                converts(*l),
                self.sound(),
                self.size() == old(self).size(),
                i <= scene@.len(),
                all == cmd_models(scene@),
                self.pixels@ == painted_all(
                    unit(*fl),
                    over(unit(*fl), light(*l)),
                    empty,
                    old(self).size().0,
                    old(self).size().1,
                    all,
                    i as int,
                ),
            decreases scene.len() - i,
        {
            assert(all[i as int] == scene@[i as int]@);
            match &scene[i] {
                DrawCmd::FilledRect { x, y, w, h, color, .. } => {
                    self.fill_rect(*x, *y, *w, *h, *color, fl, l);
                },
                DrawCmd::Text { x, y, content, size, color } => {
                    let letters: u32 = of_int(fl, content.as_str().len() as i64);
                    let wide: u32 = product(fl, product(fl, letters, *size), LETTER_WIDTH);
                    let w: u32 = greater_of(wide, LEAST_TEXT);
                    let h: u32 = sum(fl, *size, TEXT_MARGIN);
                    self.fill_rect(*x, *y, w, h, *color, fl, l);
                },
                DrawCmd::FrostedRect { x, y, w, h, tint, .. } => {
                    let tinted: u32 = *tint / 0x100 * 0x100 + 0xCC;
                    self.fill_rect(*x, *y, *w, *h, tinted, fl, l);
                },
                DrawCmd::FilledShape { x, y, w, h, fill, .. } => {
                    let color: u32 = fill.representative_color();
                    self.fill_rect(*x, *y, *w, *h, color, fl, l);
                },
                DrawCmd::Path { .. } => {},
            }
            i += 1;
        }
        Ok(())
    }
}

} // verus!
