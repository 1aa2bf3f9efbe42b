//! What an image file holds, what a gradient shows between its stops, and how a blur weighs.
use vstd::prelude::*;

use crate::blur::{raw_weight, sigma, side_weight, taps, total_weight};
use crate::canvas::{mixed as laid_over, over, Light, LightOp};
use crate::float::{truncated32, FloatQuery, Unit};
use crate::gesture_law::{at_most, lemma_at_most, numeric};
use crate::pixel_law::one;
use crate::place_law::said;
use crate::png::{adler, adler_sums, big_endian, blocks, chunk, crc32, crc_byte, crc_run, header, png, rows, signature, zlib};
use crate::scene::{between_stops, mixed, mixed_channel, stop_color};

verus! {

/// The number that four bytes of a file stand for, the highest first.
pub open spec fn word(b: Seq<u8>, i: int) -> int {
    b[i] * 0x100_0000 + b[i + 1] * 0x1_0000 + b[i + 2] * 0x100 + b[i + 3]
}

proof fn lemma_word(v: u32)
    ensures
        big_endian(v).len() == 4,
        word(big_endian(v), 0) == v,
{
}

/// The four bytes from a place on.
pub open spec fn tag(b: Seq<u8>, i: int) -> (u8, u8, u8, u8) {
    (b[i], b[i + 1], b[i + 2], b[i + 3])
}

proof fn lemma_chunk(kind: Seq<u8>, data: Seq<u8>)
    requires
        kind.len() == 4,
        data.len() <= u32::MAX,
    ensures
        chunk(kind, data).len() == data.len() + 12,
        word(chunk(kind, data), 0) == data.len(),
        tag(chunk(kind, data), 4) == tag(kind, 0),
        chunk(kind, data).subrange(8, 8 + data.len() as int) == data,
        word(chunk(kind, data), 8 + data.len() as int) == crc32(chunk(kind, data).subrange(4, 8 + data.len() as int)),
{
    let c = chunk(kind, data);
    lemma_word(data.len() as u32);
    let x = crc32(kind + data);
    lemma_word(x);
    let n = data.len() as int;
    assert(c.subrange(8, 8 + n) =~= data);
    assert(c.subrange(4, 8 + n) =~= kind + data);
    assert forall|i: int| 0 <= i < 4 implies c[i] == big_endian(data.len() as u32)[i] && c[4 + i] == kind[i] && c[8 + n
        + i] == big_endian(x)[i] by {}
    assert(c[0] == big_endian(data.len() as u32)[0]);
    assert(c[1] == big_endian(data.len() as u32)[1]);
    assert(c[2] == big_endian(data.len() as u32)[2]);
    assert(c[3] == big_endian(data.len() as u32)[3]);
    assert(c[8 + n] == big_endian(x)[0]);
    assert(c[8 + n + 1] == big_endian(x)[1]);
    assert(c[8 + n + 2] == big_endian(x)[2]);
    assert(c[8 + n + 3] == big_endian(x)[3]);
}

/// A file is the eight bytes of its format and three chunks, each with its length before it and the
/// checksum of its tag and content behind it: `IHDR` with the size, eight bits for each of four
/// channels; `IDAT` with the rows as a zlib stream; and an empty `IEND`.
pub proof fn law_file_is_three_chunks(width: u32, height: u32, pixels: Seq<u8>)
    requires
        png(width, height, pixels).len() <= u32::MAX,
    ensures
        ({
            let f = png(width, height, pixels);
            let n = word(f, 33);
            &&& tag(f, 0) == (0x89u8, 80u8, 78u8, 71u8) && tag(f, 4) == (13u8, 10u8, 26u8, 10u8)
            &&& word(f, 8) == 13 && tag(f, 12) == (73u8, 72u8, 68u8, 82u8)
            &&& word(f, 16) == width && word(f, 20) == height
            &&& tag(f, 24) == (8u8, 6u8, 0u8, 0u8) && f[28] == 0
            &&& word(f, 29) == crc32(f.subrange(12, 29))
            &&& f.len() == 57 + n && tag(f, 37) == (73u8, 68u8, 65u8, 84u8)
            &&& f[41] % 16 == 8 && (f[41] * 0x100 + f[42]) % 31 == 0
            &&& word(f, 37 + n) == adler(rows(pixels, width * 4, height as int))
            &&& word(f, 41 + n) == crc32(f.subrange(37, 41 + n))
            &&& word(f, 45 + n) == 0 && tag(f, 49 + n) == (73u8, 69u8, 78u8, 68u8)
            &&& word(f, 53 + n) == crc32(f.subrange(49 + n, 53 + n))
        }),
{
    let f = png(width, height, pixels);
    let r = rows(pixels, width * 4, height as int);
    let z = zlib(r);
    let k0 = seq![73u8, 72u8, 68u8, 82u8];
    let k1 = seq![73u8, 68u8, 65u8, 84u8];
    let k2 = seq![73u8, 69u8, 78u8, 68u8];
    let h = header(width, height);
    let a = chunk(k0, h);
    let b = chunk(k1, z);
    let c = chunk(k2, Seq::empty());
    assert(h.len() == 13 && big_endian(width).len() == 4);
    assert(a.len() == 25 && b.len() == z.len() + 12 && c.len() == 12);
    assert(f.len() == 57 + z.len());
    lemma_chunk(k0, h);
    lemma_chunk(k1, z);
    lemma_chunk(k2, Seq::empty());
    lemma_word(width);
    lemma_word(height);
    lemma_word(adler(r));
    let n = z.len() as int;
    assert(f.subrange(8, 33) =~= a);
    assert(f.subrange(33, 45 + n) =~= b);
    assert(f.subrange(45 + n, 57 + n) =~= c);
    lemma_part(f, 8, 33, 0);
    lemma_part(f, 8, 33, 4);
    lemma_part(f, 8, 33, 21);
    lemma_part(f, 33, 45 + n, 0);
    lemma_part(f, 33, 45 + n, 4);
    lemma_part(f, 33, 45 + n, 8 + n);
    lemma_part(f, 45 + n, 57 + n, 0);
    lemma_part(f, 45 + n, 57 + n, 4);
    lemma_part(f, 45 + n, 57 + n, 8);
    assert(f.subrange(12, 29) =~= a.subrange(4, 21));
    assert(f.subrange(37, 41 + n) =~= b.subrange(4, 8 + n));
    assert(f.subrange(49 + n, 53 + n) =~= c.subrange(4, 8));
    assert(f.subrange(16, 29) =~= h) by {
        assert(a.subrange(8, 21) =~= h);
        assert(f.subrange(16, 29) =~= a.subrange(8, 21));
    }
    assert(h.subrange(0, 4) =~= big_endian(width));
    assert(h.subrange(4, 8) =~= big_endian(height));
    lemma_part(f, 16, 29, 0);
    lemma_part(f, 16, 29, 4);
    lemma_part(f, 16, 29, 8);
    lemma_part(h, 0, 4, 0);
    lemma_part(h, 4, 8, 0);
    assert(f[28] == f.subrange(16, 29)[12]);
    assert(f.subrange(41, 41 + n) =~= z) by {
        assert(b.subrange(8, 8 + n) =~= z);
        assert(f.subrange(41, 41 + n) =~= b.subrange(8, 8 + n));
    }
    assert(n == 6 + blocks(r).len());
    assert(z.subrange(n - 4, n) =~= big_endian(adler(r)));
    lemma_part(f, 41, 41 + n, n - 4);
    lemma_part(z, n - 4, n, 0);
    assert(f[41] == f.subrange(41, 41 + n)[0]);
    assert(f[42] == f.subrange(41, 41 + n)[1]);
    assert(signature().len() == 8 && f.subrange(0, 8) =~= signature());
    lemma_part(f, 0, 8, 0);
    lemma_part(f, 0, 8, 4);
}

proof fn lemma_part(f: Seq<u8>, i: int, j: int, k: int)
    requires
        0 <= i <= j <= f.len(),
        0 <= k,
        i + k + 4 <= j,
    ensures
        word(f.subrange(i, j), k) == word(f, i + k),
        tag(f.subrange(i, j), k) == tag(f, i + k),
{
    let s = f.subrange(i, j);
    assert(s[k] == f[i + k]);
    assert(s[k + 1] == f[i + k + 1]);
    assert(s[k + 2] == f[i + k + 2]);
    assert(s[k + 3] == f[i + k + 3]);
}

proof fn lemma_bytes(k: u32)
    by (bit_vector)
    ensures
        k % 0x100 == k & 0xFF,
        k / 0x100 % 0x100 == (k >> 8) & 0xFF,
        k / 0x1_0000 % 0x100 == (k >> 16) & 0xFF,
        k / 0x100_0000 == (k >> 24) & 0xFF,
{
}

proof fn lemma_table(x: u32)
    by (bit_vector)
    ensures
        crc_byte(x) == crc_byte(x & 0xFF) ^ (x >> 8),
{
}

proof fn lemma_four()
    by (bit_vector)
    ensures
        crc_byte(0xFF) == 0x2D02_EF8D,
        crc_byte(0x72) == 0xBE0B_1010,
        crc_byte(0) == 0,
        crc_byte(0xED) == 0xDEBB_9EC5,
{
}

proof fn lemma_lanes(c: u32, x0: u32, x1: u32, x2: u32, x3: u32)
    by (bit_vector)
    requires
        x0 == c ^ ((c ^ 0xFFFF_FFFF) & 0xFF),
        x1 == (0x2D02_EF8D ^ (x0 >> 8)) ^ (((c ^ 0xFFFF_FFFF) >> 8) & 0xFF),
        x2 == (0xBE0B_1010 ^ (x1 >> 8)) ^ (((c ^ 0xFFFF_FFFF) >> 16) & 0xFF),
        x3 == (0u32 ^ (x2 >> 8)) ^ (((c ^ 0xFFFF_FFFF) >> 24) & 0xFF),
    ensures
        x0 & 0xFF == 0xFF,
        x1 & 0xFF == 0x72,
        x2 & 0xFF == 0,
        x3 & 0xFF == 0xED,
        0xDEBB_9EC5 ^ (x3 >> 8) == 0xDEBB_20E3,
{
}

proof fn lemma_inverted(c: u32)
    by (bit_vector)
    ensures
        0xFFFF_FFFFu32 ^ 0xFFFF_FFFF == 0,
        c ^ 0xFFFF_FFFF == 0xFFFF_FFFF ^ c,
{
}

/// The remainder of a message goes on from that of its beginning.
pub proof fn law_checksum_goes_on(c: u32, a: Seq<u8>, b: Seq<u8>)
    ensures
        crc_run(c, a + b) == crc_run(crc_run(c, a), b),
    decreases b.len(),
{
    if b.len() == 0 {
        assert(a + b =~= a);
    } else {
        assert((a + b).drop_last() =~= a + b.drop_last());
        law_checksum_goes_on(c, a, b.drop_last());
    }
}

/// Behind its own checksum, the lowest byte first, every message leaves the one remainder of CRC-32,
/// and the checksum of nothing is zero.
pub proof fn law_checksum_leaves_the_residue(s: Seq<u8>)
    ensures
        crc32(Seq::empty()) == 0,
        crc_run(
            0xFFFF_FFFF,
            s + seq![
                (crc32(s) % 0x100) as u8,
                (crc32(s) / 0x100 % 0x100) as u8,
                (crc32(s) / 0x1_0000 % 0x100) as u8,
                (crc32(s) / 0x100_0000) as u8,
            ],
        ) == 0xDEBB_20E3,
{
    let c = crc_run(0xFFFF_FFFF, s);
    let k = crc32(s);
    lemma_inverted(c);
    lemma_bytes(k);
    lemma_four();
    let b0 = (k % 0x100) as u8;
    let b1 = (k / 0x100 % 0x100) as u8;
    let b2 = (k / 0x1_0000 % 0x100) as u8;
    let b3 = (k / 0x100_0000) as u8;
    let x0 = c ^ (b0 as u32);
    let x1 = (0x2D02_EF8D ^ (x0 >> 8)) ^ (b1 as u32);
    let x2 = (0xBE0B_1010 ^ (x1 >> 8)) ^ (b2 as u32);
    let x3 = (0u32 ^ (x2 >> 8)) ^ (b3 as u32);
    lemma_lanes(c, x0, x1, x2, x3);
    lemma_table(x0);
    lemma_table(x1);
    lemma_table(x2);
    lemma_table(x3);
    let t1 = s.push(b0);
    let t2 = t1.push(b1);
    let t3 = t2.push(b2);
    let t4 = t3.push(b3);
    assert(t1.drop_last() =~= s);
    assert(t2.drop_last() =~= t1);
    assert(t3.drop_last() =~= t2);
    assert(t4.drop_last() =~= t3);
    assert(crc_run(0xFFFF_FFFF, t1) == crc_byte(x0));
    assert(crc_run(0xFFFF_FFFF, t2) == crc_byte(x1));
    assert(crc_run(0xFFFF_FFFF, t3) == crc_byte(x2));
    assert(crc_run(0xFFFF_FFFF, t4) == crc_byte(x3));
    assert(s + seq![b0, b1, b2, b3] =~= t4);
}

/// The sum of the bytes.
pub open spec fn total(s: Seq<u8>) -> int
    decreases s.len(),
{
    if s.len() == 0 {
        0
    } else {
        s[0] + total(s.drop_first())
    }
}

/// The sum of the bytes, each as many times as there are bytes from it on.
pub open spec fn climbed(s: Seq<u8>) -> int
    decreases s.len(),
{
    if s.len() == 0 {
        0
    } else {
        s.len() * s[0] + climbed(s.drop_first())
    }
}

proof fn lemma_climbed(s: Seq<u8>, x: u8)
    ensures
        total(s.push(x)) == total(s) + x,
        climbed(s.push(x)) == climbed(s) + total(s) + x,
    decreases s.len(),
{
    let t = s.push(x);
    if s.len() == 0 {
        assert(t.drop_first() =~= Seq::<u8>::empty());
        assert(total(t.drop_first()) == 0 && climbed(t.drop_first()) == 0);
        assert(t.len() * t[0] == x) by (nonlinear_arith)
            requires
                t.len() == 1,
                t[0] == x,
        ;
    } else {
        assert(t.drop_first() =~= s.drop_first().push(x));
        lemma_climbed(s.drop_first(), x);
        let n = s.len() as int;
        let y = s[0] as int;
        assert((n + 1) * y == n * y + y) by (nonlinear_arith);
        assert(t.len() * t[0] == (n + 1) * y);
    }
}

proof fn lemma_adler(s: Seq<u8>)
    ensures
        adler_sums(s).0 == (1 + total(s)) % 65521,
        adler_sums(s).1 == (s.len() + climbed(s)) % 65521,
    decreases s.len(),
{
    if s.len() > 0 {
        let p = s.drop_last();
        lemma_adler(p);
        lemma_climbed(p, s.last());
        assert(p.push(s.last()) =~= s);
        let x = s.last() as int;
        lemma_left_over(1 + total(p), x);
        let c = (adler_sums(p).0 + s.last()) % 65521;
        assert(c == (1 + total(s)) % 65521);
        lemma_left_over(1 + total(s), adler_sums(p).1);
        lemma_left_over(p.len() + climbed(p), 1 + total(s));
        assert(adler_sums(s) == (c, (adler_sums(p).1 + c) % 65521));
    }
}

proof fn lemma_left_over(x: int, y: int)
    ensures
        (x % 65521 + y) % 65521 == (x + y) % 65521,
        (y + x % 65521) % 65521 == (x + y) % 65521,
{
}

/// The checksum of a stream is one and the sum of its bytes, and above that the sum of the bytes by
/// how many stand from each on and their number, both by what they leave over 65521.
pub proof fn law_stream_is_summed(s: Seq<u8>)
    ensures
        adler(s) % 0x1_0000 == (1 + total(s)) % 65521,
        adler(s) / 0x1_0000 == (s.len() + climbed(s)) % 65521,
{
    lemma_adler(s);
}

/// One of the four bytes of a colour, the highest first.
pub open spec fn channel(c: u32, k: int) -> u32 {
    if k == 0 {
        c / 0x100_0000
    } else if k == 1 {
        c / 0x1_0000 % 0x100
    } else if k == 2 {
        c / 0x100 % 0x100
    } else {
        c % 0x100
    }
}

/// A number between zero and one; what lies outside is at the nearer end.
pub open spec fn held(x: u32, top: u32) -> u32 {
    if numeric(x) && !at_most(0, x) {
        0
    } else if numeric(x) && !at_most(x, top) {
        top
    } else {
        x
    }
}

/// The level a part of the way from one level to another.
#[verifier::opaque]
pub open spec fn level(fl: Unit, a: u32, b: u32, part: u32) -> int {
    let x = said(fl, FloatQuery::FromIntSingle { value: a as i64 });
    let y = said(fl, FloatQuery::FromIntSingle { value: b as i64 });
    let way = said(fl, FloatQuery::MulSingle { x: said(fl, FloatQuery::SubSingle { x: y, y: x }), y: part });
    let z = said(fl, FloatQuery::RoundSingle { x: said(fl, FloatQuery::AddSingle { x, y: way }) });
    truncated32(fl, held(z, 0x437F_0000), 0, u32::MAX as int)
}

proof fn lemma_apart(a: u32)
    by (bit_vector)
    ensures
        (a >> 24) & 0xff == a / 0x100_0000,
        (a >> 16) & 0xff == a / 0x1_0000 % 0x100,
        (a >> 8) & 0xff == a / 0x100 % 0x100,
        (a >> 0) & 0xff == a % 0x100,
{
}

proof fn lemma_together(p: u32, q: u32, r: u32, s: u32)
    by (bit_vector)
    requires
        p <= 0xff,
        q <= 0xff,
        r <= 0xff,
        s <= 0xff,
    ensures
        p << 24 | q << 16 | r << 8 | s << 0 == p * 0x100_0000 + q * 0x1_0000 + r * 0x100 + s,
{
}

proof fn lemma_held_at(x: u32, top: u32)
    requires
        numeric(top),
    ensures
        crate::float::clamp32(x, 0, top) == held(x, top),
{
    lemma_at_most(0, x);
    lemma_at_most(x, top);
    lemma_at_most(x, 0);
    lemma_at_most(top, x);
}

/// Between two colours each of the four channels goes its own way by the same part.
pub proof fn law_colors_mix_by_channel(fl: Unit, a: u32, b: u32, f: u32, k: int)
    requires
        0 <= k < 4,
        forall|j: int|
            0 <= j < 4 ==> 0 <= level(fl, #[trigger] channel(a, j), channel(b, j), held(f, one())) <= 255,
    ensures
        channel(mixed(fl, a, b, f), k) == level(fl, channel(a, k), channel(b, k), held(f, one())),
{
    let g = held(f, one());
    lemma_held_at(f, one());
    let l0 = level(fl, channel(a, 0), channel(b, 0), g);
    let l1 = level(fl, channel(a, 1), channel(b, 1), g);
    let l2 = level(fl, channel(a, 2), channel(b, 2), g);
    let l3 = level(fl, channel(a, 3), channel(b, 3), g);
    lemma_levels(fl, a, b, g, l0, l1, l2, l3);
    lemma_read(mixed(fl, a, b, f), l0 as u32, l1 as u32, l2 as u32, l3 as u32);
}

proof fn lemma_read(v: u32, p: u32, q: u32, r: u32, s: u32)
    by (bit_vector)
    requires
        p <= 0xff,
        q <= 0xff,
        r <= 0xff,
        s <= 0xff,
        v == p * 0x100_0000 + q * 0x1_0000 + r * 0x100 + s,
    ensures
        v / 0x100_0000 == p,
        v / 0x1_0000 % 0x100 == q,
        v / 0x100 % 0x100 == r,
        v % 0x100 == s,
{
}

proof fn lemma_levels(fl: Unit, a: u32, b: u32, g: u32, l0: int, l1: int, l2: int, l3: int)
    requires
        l0 == level(fl, channel(a, 0), channel(b, 0), g),
        l1 == level(fl, channel(a, 1), channel(b, 1), g),
        l2 == level(fl, channel(a, 2), channel(b, 2), g),
        l3 == level(fl, channel(a, 3), channel(b, 3), g),
        0 <= l0 <= 0xff,
        0 <= l1 <= 0xff,
        0 <= l2 <= 0xff,
        0 <= l3 <= 0xff,
    ensures
        mixed_channel(fl, a, b, g, 24) | mixed_channel(fl, a, b, g, 16) | mixed_channel(fl, a, b, g, 8)
            | mixed_channel(fl, a, b, g, 0) == l0 * 0x100_0000 + l1 * 0x1_0000 + l2 * 0x100 + l3,
{
    lemma_apart(a);
    lemma_apart(b);
    assert(mixed_channel(fl, a, b, g, 24) == (l0 as u32) << 24u32) by {
        lemma_level(fl, a, b, g, 24, 0);
    }
    assert(mixed_channel(fl, a, b, g, 16) == (l1 as u32) << 16u32) by {
        lemma_level(fl, a, b, g, 16, 1);
    }
    assert(mixed_channel(fl, a, b, g, 8) == (l2 as u32) << 8u32) by {
        lemma_level(fl, a, b, g, 8, 2);
    }
    assert(mixed_channel(fl, a, b, g, 0) == (l3 as u32) << 0u32) by {
        lemma_level(fl, a, b, g, 0, 3);
    }
    lemma_together(l0 as u32, l1 as u32, l2 as u32, l3 as u32);
}

proof fn lemma_level(fl: Unit, a: u32, b: u32, g: u32, shift: u32, k: int)
    requires
        (a >> shift) & 0xff == channel(a, k),
        (b >> shift) & 0xff == channel(b, k),
    ensures
        mixed_channel(fl, a, b, g, shift) == (level(fl, channel(a, k), channel(b, k), g) as u32) << shift,
{
    reveal(level);
    let x = said(fl, FloatQuery::FromIntSingle { value: channel(a, k) as i64 });
    let y = said(fl, FloatQuery::FromIntSingle { value: channel(b, k) as i64 });
    let way = said(fl, FloatQuery::MulSingle { x: said(fl, FloatQuery::SubSingle { x: y, y: x }), y: g });
    lemma_held_at(
        said(fl, FloatQuery::RoundSingle { x: said(fl, FloatQuery::AddSingle { x, y: way }) }),
        0x437F_0000,
    );
}

/// The place lies between the stop and the next.
pub open spec fn lies_in(stops: Seq<(u32, u32)>, t: u32, i: int) -> bool {
    at_most(stops[i].0, t) && at_most(t, stops[i + 1].0)
}

proof fn lemma_between(fl: Unit, stops: Seq<(u32, u32)>, t: u32, j: int, i: int)
    requires
        0 <= j <= i,
        i + 1 < stops.len(),
        lies_in(stops, t, i),
        forall|k: int| j <= k < i ==> !#[trigger] lies_in(stops, t, k),
    ensures
        between_stops(fl, stops, t, j) == between_stops(fl, stops, t, i),
    decreases i - j,
{
    if j < i {
        assert(!lies_in(stops, t, j));
        lemma_at_most(stops[j].0, t);
        lemma_at_most(t, stops[j + 1].0);
        lemma_between(fl, stops, t, j + 1, i);
    }
}

/// Between two stops a gradient mixes their two colours, by the part of the way that lies behind the
/// first of them.
pub proof fn law_gradient_mixes_neighbours(fl: Unit, stops: Seq<(u32, u32)>, t: u32, i: int)
    requires
        at_most(0, t),
        at_most(t, one()),
        0 <= i,
        i + 1 < stops.len(),
        !at_most(t, stops[0].0),
        !at_most(stops.last().0, t),
        lies_in(stops, t, i),
        forall|k: int| 0 <= k < i ==> !#[trigger] lies_in(stops, t, k),
    ensures
        ({
            let whole = said(fl, FloatQuery::SubSingle { x: stops[i + 1].0, y: stops[i].0 });
            let behind_it = said(fl, FloatQuery::SubSingle { x: t, y: stops[i].0 });
            stop_color(fl, stops, t) == mixed(
                fl,
                stops[i].1,
                stops[i + 1].1,
                said(
                    fl,
                    FloatQuery::DivSingle {
                        x: behind_it,
                        y: if at_most(0x3400_0000, whole) {
                            whole
                        } else {
                            0x3400_0000
                        },
                    },
                ),
            )
        }),
{
    let whole = said(fl, FloatQuery::SubSingle { x: stops[i + 1].0, y: stops[i].0 });
    lemma_held_at(t, one());
    lemma_at_most(t, stops[0].0);
    lemma_at_most(stops.last().0, t);
    lemma_at_most(stops[i].0, t);
    lemma_at_most(t, stops[i + 1].0);
    lemma_at_most(0x3400_0000, whole);
    lemma_at_most(whole, 0x3400_0000);
    lemma_between(fl, stops, t, 0, i);
}

/// A blur spreads by a third of its radius, at least by one half, and reaches as far as three times
/// that, rounded up, from one to 64.
pub proof fn law_blur_reaches_by_its_radius(fl: Unit, radius: u32, s: u32)
    ensures
        ({
            let third = said(fl, FloatQuery::DivSingle { x: radius, y: 0x4040_0000 });
            sigma(fl, radius) == if at_most(0x3F00_0000, third) {
                third
            } else {
                0x3F00_0000
            }
        }),
        ({
            let wide = said(
                fl,
                FloatQuery::CeilSingle { x: said(fl, FloatQuery::MulSingle { x: 0x4040_0000, y: s }) },
            );
            let n = truncated32(fl, wide, i32::MIN as int, i32::MAX as int);
            &&& 1 <= taps(fl, s) <= 64
            &&& 1 <= n <= 64 ==> taps(fl, s) == n
            &&& n < 1 ==> taps(fl, s) == 1
            &&& n > 64 ==> taps(fl, s) == 64
        }),
{
    let third = said(fl, FloatQuery::DivSingle { x: radius, y: 0x4040_0000 });
    lemma_at_most(0x3F00_0000, third);
    lemma_at_most(third, 0x3F00_0000);
}

/// A tap weighs by the bell curve of its distance, and all weigh the middle one and both sides.
pub proof fn law_taps_weigh_by_the_bell(fl: Unit, s: u32, i: int, n: int)
    ensures
        ({
            let d = said(fl, FloatQuery::FromIntSingle { value: i as i64 });
            let square = said(fl, FloatQuery::MulSingle { x: d, y: d });
            let minus = if square < 0x8000_0000 {
                (square + 0x8000_0000) as u32
            } else {
                (square - 0x8000_0000) as u32
            };
            let twice = said(fl, FloatQuery::MulSingle { x: 0x4000_0000, y: s });
            raw_weight(fl, s, i) == said(
                fl,
                FloatQuery::ExpSingle {
                    x: said(
                        fl,
                        FloatQuery::DivSingle { x: minus, y: said(fl, FloatQuery::MulSingle { x: twice, y: s }) },
                    ),
                },
            )
        }),
        side_weight(fl, s, 0) == 0,
        n > 0 ==> side_weight(fl, s, n) == said(
            fl,
            FloatQuery::AddSingle { x: side_weight(fl, s, n - 1), y: raw_weight(fl, s, n) },
        ),
        total_weight(fl, s, n) == said(
            fl,
            FloatQuery::AddSingle {
                x: raw_weight(fl, s, 0),
                y: said(fl, FloatQuery::MulSingle { x: 0x4000_0000, y: side_weight(fl, s, n) }),
            },
        ),
{
}

/// The share that a colour has of what it lies over: its opacity of 255.
pub open spec fn share(fl: Unit, s: u32) -> u32 {
    said(
        fl,
        FloatQuery::DivSingle {
            x: said(fl, FloatQuery::FromIntSingle { value: (s % 0x100) as i64 }),
            y: 0x437F_0000,
        },
    )
}

/// What is left of one beside the share of a colour.
pub open spec fn rest(fl: Unit, s: u32) -> u32 {
    said(fl, FloatQuery::SubSingle { x: 0x3F80_0000, y: share(fl, s) })
}

/// One channel in linear light, of a colour by its share and of the one below by the rest.
pub open spec fn both(fl: Unit, l: Light, s: u32, d: u32, k: u8) -> u32 {
    said(
        fl,
        FloatQuery::AddSingle {
            x: said(
                fl,
                FloatQuery::MulSingle { x: l(LightOp::Linear { packed: s, channel: k }), y: share(fl, s) },
            ),
            y: said(
                fl,
                FloatQuery::MulSingle { x: l(LightOp::Linear { packed: d, channel: k }), y: rest(fl, s) },
            ),
        },
    )
}

proof fn lemma_both(fl: Unit, l: Light, s: u32, d: u32, k: u8)
    ensures
        laid_over(fl, l, s, d, k) == both(fl, l, s, d, k),
{
}

/// A colour lies over a colour by how opaque it is: of each channel, in linear light, it gives its
/// share, and what is below gives the rest.
pub proof fn law_color_lies_over_by_its_share(fl: Unit, l: Light, s: u32, d: u32)
    ensures
        ({
            let below = l(LightOp::Linear { packed: d, channel: 3 });
            over(fl, l)(s, d) == l(
                LightOp::Packed {
                    r: both(fl, l, s, d, 0),
                    g: both(fl, l, s, d, 1),
                    b: both(fl, l, s, d, 2),
                    a: said(
                        fl,
                        FloatQuery::AddSingle {
                            x: share(fl, s),
                            y: said(fl, FloatQuery::MulSingle { x: below, y: rest(fl, s) }),
                        },
                    ),
                },
            )
        }),
{
    lemma_both(fl, l, s, d, 0);
    lemma_both(fl, l, s, d, 1);
    lemma_both(fl, l, s, d, 2);
}

} // verus!
