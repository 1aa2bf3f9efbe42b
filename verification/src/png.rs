//! A PNG writer for previews: 8-bit RGBA, the pixels in stored (uncompressed) deflate blocks.
use vstd::prelude::*;

verus! {

/// The four bytes of a number, the highest first.
pub open spec fn big_endian(v: u32) -> Seq<u8> {
    seq![
        (v / 0x100_0000) as u8,
        (v / 0x1_0000 % 0x100) as u8,
        (v / 0x100 % 0x100) as u8,
        (v % 0x100) as u8,
    ]
}

/// The two bytes of a number, the lowest first.
pub open spec fn little_endian(v: u16) -> Seq<u8> {
    seq![(v % 0x100) as u8, (v / 0x100) as u8]
}

/// One step of the division by the CRC polynomial.
pub open spec fn crc_bit(c: u32) -> u32 {
    if c & 1 != 0 {
        0xEDB8_8320 ^ (c >> 1)
    } else {
        c >> 1
    }
}

/// Eight steps of the division.
pub open spec fn crc_byte(c: u32) -> u32 {
    crc_bit(crc_bit(crc_bit(crc_bit(crc_bit(crc_bit(crc_bit(crc_bit(c))))))))
}

/// The remainder after the bytes of `s`, from the remainder `c`.
pub open spec fn crc_run(c: u32, s: Seq<u8>) -> u32
    decreases s.len(),
{
    if s.len() == 0 {
        c
    } else {
        crc_byte(crc_run(c, s.drop_last()) ^ (s.last() as u32))
    }
}

/// The CRC-32 of a sequence of bytes.
pub open spec fn crc32(s: Seq<u8>) -> u32 {
    crc_run(0xFFFF_FFFF, s) ^ 0xFFFF_FFFF
}

/// The two sums of Adler-32: of the bytes, from one, and of those sums.
pub open spec fn adler_sums(s: Seq<u8>) -> (int, int)
    decreases s.len(),
{
    if s.len() == 0 {
        (1, 0)
    } else {
        let (a, b) = adler_sums(s.drop_last());
        let c = (a + s.last()) % 65521;
        (c, (b + c) % 65521)
    }
}

/// The Adler-32 of a sequence of bytes.
pub open spec fn adler(s: Seq<u8>) -> u32 {
    (adler_sums(s).1 * 0x1_0000 + adler_sums(s).0) as u32
}

/// A chunk: length, type, data and the checksum of type and data.
pub open spec fn chunk(kind: Seq<u8>, data: Seq<u8>) -> Seq<u8> {
    big_endian(data.len() as u32) + kind + data + big_endian(crc32(kind + data))
}

/// A stored deflate block.
pub open spec fn block(last: bool, data: Seq<u8>) -> Seq<u8> {
    seq![
        if last {
            1u8
        } else {
            0u8
        },
    ] + little_endian(data.len() as u16) + little_endian((0xFFFF - data.len()) as u16) + data
}

/// The data in stored blocks of at most 65535 bytes; no data is one empty block.
pub open spec fn blocks(s: Seq<u8>) -> Seq<u8>
    decreases s.len(),
{
    if s.len() <= 0xFFFF {
        block(true, s)
    } else {
        block(false, s.take(0xFFFF)) + blocks(s.skip(0xFFFF))
    }
}

/// The data as a zlib stream.
pub open spec fn zlib(s: Seq<u8>) -> Seq<u8> {
    seq![0x78u8, 0x01u8] + blocks(s) + big_endian(adler(s))
}

/// The first `n` rows of pixels, each behind the byte that says it is not filtered.
pub open spec fn rows(pixels: Seq<u8>, stride: int, n: int) -> Seq<u8>
    decreases n,
{
    if n <= 0 {
        Seq::empty()
    } else {
        rows(pixels, stride, n - 1) + seq![0u8] + pixels.subrange((n - 1) * stride, n * stride)
    }
}

/// The header: size, eight bits, red green blue alpha, no interlace.
pub open spec fn header(width: u32, height: u32) -> Seq<u8> {
    big_endian(width) + big_endian(height) + seq![8u8, 6u8, 0u8, 0u8, 0u8]
}

/// The eight bytes that every PNG starts with.
pub open spec fn signature() -> Seq<u8> {
    seq![0x89u8, 80u8, 78u8, 71u8, 0x0Du8, 0x0Au8, 0x1Au8, 0x0Au8]
}

/// The PNG of an image.
pub open spec fn png(width: u32, height: u32, pixels: Seq<u8>) -> Seq<u8> {
    signature() + chunk(seq![73u8, 72u8, 68u8, 82u8], header(width, height)) + chunk(
        seq![73u8, 68u8, 65u8, 84u8],
        zlib(rows(pixels, width * 4, height as int)),
    ) + chunk(seq![73u8, 69u8, 78u8, 68u8], Seq::empty())
}

fn push_big_endian(out: &mut Vec<u8>, v: u32)
    ensures
        final(out)@ == old(out)@ + big_endian(v),
{
    out.push((v / 0x100_0000) as u8);
    out.push((v / 0x1_0000 % 0x100) as u8);
    out.push((v / 0x100 % 0x100) as u8);
    out.push((v % 0x100) as u8);
    assert(out@ =~= old(out)@ + big_endian(v));
}

fn push_little_endian(out: &mut Vec<u8>, v: u16)
    ensures
        final(out)@ == old(out)@ + little_endian(v),
{
    out.push((v % 0x100) as u8);
    out.push((v / 0x100) as u8);
    assert(out@ =~= old(out)@ + little_endian(v));
}

fn push_part(out: &mut Vec<u8>, data: &[u8], from: usize, to: usize)
    requires
        from <= to <= data@.len(),
    ensures
        final(out)@ == old(out)@ + data@.subrange(from as int, to as int),
{
    let mut i: usize = from;
    assert(out@ =~= out@ + data@.subrange(from as int, from as int));
    while i < to
        invariant
            from <= i <= to <= data@.len(),
            out@ == old(out)@ + data@.subrange(from as int, i as int),
        decreases to - i,
    {
        out.push(data[i]);
        i += 1;
        assert(out@ =~= old(out)@ + data@.subrange(from as int, i as int));
    }
}

fn adler32(data: &[u8]) -> (r: u32)
    ensures
        r == adler(data@),
{
    let mut a: u32 = 1;
    let mut b: u32 = 0;
    let mut i: usize = 0;
    assert(data@.take(0) =~= Seq::<u8>::empty());
    while i < data.len()
        invariant
            i <= data@.len(),
            a < 65521,
            b < 65521,
            (a as int, b as int) == adler_sums(data@.take(i as int)),
        decreases data@.len() - i,
    {
        assert(data@.take(i + 1).drop_last() =~= data@.take(i as int));
        a = (a + data[i] as u32) % 65521;
        b = (b + a) % 65521;
        i += 1;
    }
    assert(data@.take(i as int) =~= data@);
    b * 0x1_0000 + a
}

proof fn lemma_crc_table(x: u32)
    by (bit_vector)
    ensures
        crc_byte(x) == crc_byte(x & 0xFF) ^ (x >> 8),
{
}

fn crc_entry(n: u32) -> (r: u32)
    ensures
        r == crc_byte(n),
{
    let mut c: u32 = n;
    let mut i: u32 = 0;
    let ghost whole = crc_byte(n);
    while i < 8
        invariant
            i <= 8,
            whole == crc_byte(n),
            i == 0 ==> c == n,
            i == 1 ==> c == crc_bit(n),
            i == 2 ==> c == crc_bit(crc_bit(n)),
            i == 3 ==> c == crc_bit(crc_bit(crc_bit(n))),
            i == 4 ==> c == crc_bit(crc_bit(crc_bit(crc_bit(n)))),
            i == 5 ==> c == crc_bit(crc_bit(crc_bit(crc_bit(crc_bit(n))))),
            i == 6 ==> c == crc_bit(crc_bit(crc_bit(crc_bit(crc_bit(crc_bit(n)))))),
            i == 7 ==> c == crc_bit(crc_bit(crc_bit(crc_bit(crc_bit(crc_bit(crc_bit(n))))))),
            i == 8 ==> c == whole,
        decreases 8 - i,
    {
        c = if c & 1 != 0 {
            0xEDB8_8320 ^ (c >> 1)
        } else {
            c >> 1
        };
        i += 1;
    }
    c
}

struct Crc32 {
    crc: u32,
    table: Vec<u32>,
}

impl Crc32 {
    spec fn ready(self) -> bool {
        &&& self.table@.len() == 256
        &&& forall|i: int| 0 <= i < 256 ==> #[trigger] self.table@[i] == crc_byte(i as u32)
    }

    fn new() -> (r: Crc32)
        ensures
            r.crc == 0xFFFF_FFFF,
            r.ready(),
    {
        let mut table: Vec<u32> = Vec::new();
        let mut n: u32 = 0;
        while n < 256
            invariant
                n <= 256,
                table@.len() == n,
                forall|i: int| 0 <= i < n ==> #[trigger] table@[i] == crc_byte(i as u32),
            decreases 256 - n,
        {
            table.push(crc_entry(n));
            n += 1;
        }
        Crc32 { crc: 0xFFFF_FFFF, table }
    }

    fn update(&mut self, data: &[u8])
        requires
            old(self).ready(),
        ensures
            final(self).ready(),
            final(self).crc == crc_run(old(self).crc, data@),
    {
        let mut i: usize = 0;
        assert(data@.take(0) =~= Seq::<u8>::empty());
        while i < data.len()
            invariant
                self.ready(),
                i <= data@.len(),
                self.crc == crc_run(old(self).crc, data@.take(i as int)),
            decreases data@.len() - i,
        {
            assert(data@.take(i + 1).drop_last() =~= data@.take(i as int));
            let x: u32 = self.crc ^ (data[i] as u32);
            let low: u32 = x & 0xFF;
            proof {
                lemma_crc_table(x);
                assert(x & 0xFF < 256) by (bit_vector);
                let c = self.crc;
                let d = data@[i as int] as u32;
                assert((c ^ d) >> 8 == c >> 8) by (bit_vector)
                    requires
                        d < 256,
                ;
            }
            let entry: u32 = self.table[low as usize];
            self.crc = entry ^ (self.crc >> 8);
            i += 1;
        }
        assert(data@.take(i as int) =~= data@);
    }

    fn finalize(&self) -> (r: u32)
        ensures
            r == self.crc ^ 0xFFFF_FFFF,
    {
        self.crc ^ 0xFFFF_FFFF
    }
}

proof fn lemma_crc_join(c: u32, a: Seq<u8>, b: Seq<u8>)
    ensures
        crc_run(c, a + b) == crc_run(crc_run(c, a), b),
    decreases b.len(),
{
    if b.len() == 0 {
        assert(a + b =~= a);
    } else {
        lemma_crc_join(c, a, b.drop_last());
        assert((a + b).drop_last() =~= a + b.drop_last());
    }
}

fn write_chunk(out: &mut Vec<u8>, kind: &[u8], data: &[u8])
    ensures
        final(out)@ == old(out)@ + chunk(kind@, data@),
{
    push_big_endian(out, data.len() as u32);
    push_part(out, kind, 0, kind.len());
    push_part(out, data, 0, data.len());
    assert(kind@.subrange(0, kind@.len() as int) =~= kind@);
    assert(data@.subrange(0, data@.len() as int) =~= data@);
    let mut crc = Crc32::new();
    crc.update(kind);
    crc.update(data);
    proof {
        lemma_crc_join(0xFFFF_FFFF, kind@, data@);
    }
    let sum: u32 = crc.finalize();
    push_big_endian(out, sum);
    assert(out@ =~= old(out)@ + chunk(kind@, data@));
}

fn push_block(out: &mut Vec<u8>, last: bool, data: &[u8], from: usize, to: usize)
    requires
        from <= to <= data@.len(),
        to - from <= 0xFFFF,
    ensures
        final(out)@ == old(out)@ + block(last, data@.subrange(from as int, to as int)),
{
    let len: u16 = (to - from) as u16;
    out.push(
        if last {
            1
        } else {
            0
        },
    );
    push_little_endian(out, len);
    push_little_endian(out, 0xFFFF - len);
    push_part(out, data, from, to);
    assert(out@ =~= old(out)@ + block(last, data@.subrange(from as int, to as int)));
}

fn zlib_store(data: &[u8]) -> (r: Vec<u8>)
    ensures
        r@ == zlib(data@),
{
    let mut out: Vec<u8> = Vec::new();
    out.push(0x78);
    out.push(0x01);
    let n: usize = data.len();
    let mut offset: usize = 0;
    assert(data@.skip(0) =~= data@);
    assert(out@ =~= seq![0x78u8, 0x01u8]);
    while n - offset > 0xFFFF
        invariant
            n == data@.len(),
            offset <= n,
            out@ + blocks(data@.skip(offset as int)) == seq![0x78u8, 0x01u8] + blocks(data@),
        decreases n - offset,
    {
        let ghost rest = data@.skip(offset as int);
        let ghost so_far = out@;
        push_block(&mut out, false, data, offset, offset + 0xFFFF);
        assert(rest.take(0xFFFF) =~= data@.subrange(offset as int, offset + 0xFFFF));
        assert(rest.skip(0xFFFF) =~= data@.skip(offset + 0xFFFF));
        offset = offset + 0xFFFF;
        assert(out@ + blocks(data@.skip(offset as int)) =~= so_far + blocks(rest));
    }
    assert(data@.skip(offset as int) =~= data@.subrange(offset as int, n as int));
    push_block(&mut out, true, data, offset, n);
    push_big_endian(&mut out, adler32(data));
    out
}

/// The image as a PNG file. The pixels are rows from the top, four bytes each.
pub fn encode_rgba(width: u32, height: u32, pixels: &[u8]) -> (r: Vec<u8>)
    requires
        pixels@.len() == width * height * 4,
    ensures
        r@ == png(width, height, pixels@),
{
    let mut out: Vec<u8> = Vec::new();
    out.push(0x89);
    out.push(80);
    out.push(78);
    out.push(71);
    out.push(0x0D);
    out.push(0x0A);
    out.push(0x1A);
    out.push(0x0A);
    assert(out@ =~= signature());
    let mut ihdr: Vec<u8> = Vec::new();
    push_big_endian(&mut ihdr, width);
    push_big_endian(&mut ihdr, height);
    ihdr.push(8);
    ihdr.push(6);
    ihdr.push(0);
    ihdr.push(0);
    ihdr.push(0);
    assert(ihdr@ =~= header(width, height));
    let ihdr_kind: [u8; 4] = [73, 72, 68, 82];
    assert(ihdr_kind@ =~= seq![73u8, 72u8, 68u8, 82u8]);
    write_chunk(&mut out, &ihdr_kind, ihdr.as_slice());
    let mut raw: Vec<u8> = Vec::new();
    let mut y: u32 = 0;
    let mut start: usize = 0;
    let ghost stride: int = width * 4;
    assert(raw@ =~= rows(pixels@, stride, 0));
    let size: usize = pixels.len();
    while y < height
        invariant
            y <= height,
            stride == width * 4,
            size == pixels@.len(),
            pixels@.len() == width * height * 4,
            start == y * stride,
            raw@ == rows(pixels@, stride, y as int),
        decreases height - y,
    {
        proof {
            assert((y + 1) * stride == y * stride + stride) by (nonlinear_arith);
            assert((y + 1) * stride <= height * stride) by (nonlinear_arith)
                requires
                    y + 1 <= height,
                    stride >= 0,
            ;
            assert(height * stride == width * height * 4) by (nonlinear_arith)
                requires
                    stride == width * 4,
            ;
        }
        let ghost so_far = raw@;
        raw.push(0);
        let end: usize = row_end(start, width, size);
        push_part(&mut raw, pixels, start, end);
        start = end;
        y += 1;
        assert(raw@ =~= rows(pixels@, stride, y as int));
    }
    let z = zlib_store(raw.as_slice());
    let idat_kind: [u8; 4] = [73, 68, 65, 84];
    assert(idat_kind@ =~= seq![73u8, 68u8, 65u8, 84u8]);
    write_chunk(&mut out, &idat_kind, z.as_slice());
    let iend_kind: [u8; 4] = [73, 69, 78, 68];
    assert(iend_kind@ =~= seq![73u8, 69u8, 78u8, 68u8]);
    let nothing: Vec<u8> = Vec::new();
    assert(nothing@ =~= Seq::<u8>::empty());
    write_chunk(&mut out, &iend_kind, nothing.as_slice());
    out
}

/// Where the row that starts at `start` ends.
fn row_end(start: usize, width: u32, size: usize) -> (r: usize)
    requires
        start + width * 4 <= size,
    ensures
        r == start + width * 4,
{
    start + (width as usize) * 4
}

/// The data that the stored blocks from `at` on hold, as a reader of deflate streams takes them:
/// `None` where the bytes are no such blocks.
pub open spec fn unstored(z: Seq<u8>, at: int) -> Option<Seq<u8>>
    decreases z.len() - at,
{
    if at < 0 || at + 5 > z.len() {
        None
    } else {
        let len = z[at + 1] + 256 * z[at + 2];
        let complement = z[at + 3] + 256 * z[at + 4];
        let end = at + 5 + len;
        if len + complement != 0xFFFF || end > z.len() {
            None
        } else if z[at] == 1 {
            Some(z.subrange(at + 5, end))
        } else if z[at] == 0 {
            match unstored(z, end) {
                Some(rest) => Some(z.subrange(at + 5, end) + rest),
                None => None,
            }
        } else {
            None
        }
    }
}

proof fn lemma_block_bytes(last: bool, d: Seq<u8>, z: Seq<u8>, at: int)
    requires
        0 <= at,
        d.len() <= 0xFFFF,
        at + block(last, d).len() <= z.len(),
        z.subrange(at, at + block(last, d).len()) == block(last, d),
    ensures
        block(last, d).len() == d.len() + 5,
        z[at] == if last {
            1u8
        } else {
            0u8
        },
        z[at + 1] + 256 * z[at + 2] == d.len(),
        z[at + 3] + 256 * z[at + 4] == 0xFFFF - d.len(),
        z.subrange(at + 5, at + 5 + d.len()) == d,
{
    let b = block(last, d);
    let part = z.subrange(at, at + b.len());
    assert(part[0] == z[at]);
    assert(part[1] == z[at + 1]);
    assert(part[2] == z[at + 2]);
    assert(part[3] == z[at + 3]);
    assert(part[4] == z[at + 4]);
    let l = d.len() as u16;
    let m = (0xFFFF - d.len()) as u16;
    assert(b[1] == (l % 0x100) as u8 && b[2] == (l / 0x100) as u8);
    assert(b[3] == (m % 0x100) as u8 && b[4] == (m / 0x100) as u8);
    assert(z.subrange(at + 5, at + 5 + d.len()) =~= d) by {
        assert forall|i: int| 0 <= i < d.len() implies z[at + 5 + i] == d[i] by {
            assert(part[5 + i] == z[at + 5 + i]);
            assert(b[5 + i] == d[i]);
        }
    }
}

proof fn lemma_blocks_read_back(s: Seq<u8>, z: Seq<u8>, at: int)
    requires
        0 <= at,
        at + blocks(s).len() <= z.len(),
        z.subrange(at, at + blocks(s).len()) == blocks(s),
    ensures
        unstored(z, at) == Some(s),
    decreases s.len(),
{
    let all = blocks(s);
    if s.len() <= 0xFFFF {
        lemma_block_bytes(true, s, z, at);
    } else {
        let a = s.take(0xFFFF);
        let r = s.skip(0xFFFF);
        let b = block(false, a);
        assert(z.subrange(at, at + b.len()) =~= b) by {
            assert forall|i: int| 0 <= i < b.len() implies z[at + i] == b[i] by {
                assert(z.subrange(at, at + all.len())[i] == all[i]);
            }
        }
        lemma_block_bytes(false, a, z, at);
        let end = at + b.len();
        assert(z.subrange(end, end + blocks(r).len()) =~= blocks(r)) by {
            assert forall|i: int| 0 <= i < blocks(r).len() implies z[end + i] == blocks(r)[i] by {
                assert(z.subrange(at, at + all.len())[b.len() + i] == all[b.len() + i]);
            }
        }
        lemma_blocks_read_back(r, z, end);
        assert(a + r =~= s);
    }
}

proof fn lemma_rows(pixels: Seq<u8>, stride: int, n: int, y: int, x: int)
    requires
        0 <= stride,
        0 <= y < n,
        n * stride <= pixels.len(),
    ensures
        rows(pixels, stride, n).len() == n * (stride + 1),
        rows(pixels, stride, n)[y * (stride + 1)] == 0,
        0 <= x < stride ==> rows(pixels, stride, n)[y * (stride + 1) + 1 + x] == pixels[y * stride + x],
    decreases n,
{
    assert((n - 1) * stride + stride == n * stride) by (nonlinear_arith);
    lemma_rows_len(pixels, stride, n - 1);
    lemma_rows_len(pixels, stride, n);
    assert((n - 1) * (stride + 1) + stride + 1 == n * (stride + 1)) by (nonlinear_arith);
    if y < n - 1 {
        lemma_rows(pixels, stride, n - 1, y, x);
        assert(y * (stride + 1) + stride + 1 <= (n - 1) * (stride + 1)) by (nonlinear_arith)
            requires
                y + 1 <= n - 1,
                stride >= 0,
        ;
        assert(y * (stride + 1) >= 0) by (nonlinear_arith)
            requires
                y >= 0,
                stride >= 0,
        ;
    } else {
        assert((n - 1) * stride >= 0) by (nonlinear_arith)
            requires
                n - 1 >= 0,
                stride >= 0,
        ;
        if 0 <= x < stride {
            assert(pixels.subrange((n - 1) * stride, n * stride)[x] == pixels[(n - 1) * stride + x]);
        }
    }
}

proof fn lemma_rows_len(pixels: Seq<u8>, stride: int, n: int)
    requires
        0 <= stride,
        0 <= n,
        n * stride <= pixels.len(),
    ensures
        rows(pixels, stride, n).len() == n * (stride + 1),
    decreases n,
{
    if n > 0 {
        assert((n - 1) * stride + stride == n * stride) by (nonlinear_arith);
        assert((n - 1) * (stride + 1) + stride + 1 == n * (stride + 1)) by (nonlinear_arith);
        assert((n - 1) * stride >= 0) by (nonlinear_arith)
            requires
                n - 1 >= 0,
                stride >= 0,
        ;
        lemma_rows_len(pixels, stride, n - 1);
    } else {
        assert(n * (stride + 1) == 0) by (nonlinear_arith)
            requires
                n == 0,
        ;
    }
}

proof fn lemma_file_read_back(width: u32, height: u32, pixels: Seq<u8>)
    ensures
        unstored(png(width, height, pixels), 43) == Some(rows(pixels, width * 4, height as int)),
{
    let stride = width * 4;
    let r = rows(pixels, stride, height as int);
    let f = png(width, height, pixels);
    let b = blocks(r);
    let kind = seq![73u8, 68u8, 65u8, 84u8];
    let z = zlib(r);
    let before_it = signature() + chunk(seq![73u8, 72u8, 68u8, 82u8], header(width, height)) + big_endian(
        z.len() as u32,
    ) + kind + seq![0x78u8, 0x01u8];
    let behind_it = big_endian(adler(r)) + big_endian(crc32(kind + z)) + chunk(
        seq![73u8, 69u8, 78u8, 68u8],
        Seq::empty(),
    );
    assert(before_it.len() == 43);
    assert(f =~= before_it + b + behind_it);
    assert(f.subrange(43, 43int + b.len()) =~= b);
    lemma_blocks_read_back(r, f, 43);
}

/// Every pixel can be read back from the file, of whatever size: the stored blocks start 43 bytes into
/// it, a reader of them gets the rows, and each byte of each row is the byte of the pixel.
pub proof fn law_pixels_read_back(width: u32, height: u32, pixels: Seq<u8>, y: int, x: int)
    requires
        pixels.len() == width * height * 4,
    ensures
        unstored(png(width, height, pixels), 43) == Some(rows(pixels, width * 4, height as int)),
        rows(pixels, width * 4, height as int).len() == height * (width * 4 + 1),
        0 <= y < height ==> rows(pixels, width * 4, height as int)[y * (width * 4 + 1)] == 0,
        0 <= y < height && 0 <= x < width * 4 ==> rows(pixels, width * 4, height as int)[y * (width * 4 + 1) + 1 + x]
            == pixels[y * (width * 4) + x],
{
    let stride = width * 4;
    assert(height * stride == width * height * 4) by (nonlinear_arith)
        requires
            stride == width * 4,
    ;
    lemma_rows_len(pixels, stride, height as int);
    if 0 <= y < height {
        lemma_rows(pixels, stride, height as int, y, x);
    }
    lemma_file_read_back(width, height, pixels);
}

} // verus!
