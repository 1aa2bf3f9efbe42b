//! Text from its bytes.
use vstd::prelude::*;
use vstd::utf8::{
    decode_first_scalar, encode_scalar, encode_utf8, encode_utf8_first_scalar, is_scalar, length_of_first_scalar, pop_first_scalar,
    valid_first_scalar,
};

verus! {

/// The character that stands for a byte which belongs to none.
pub const STRAY: char = '\u{FFFD}';

/// The text that bytes encode in UTF-8. A byte that begins no character, which no text holds, is
/// taken as [`STRAY`].
pub open spec fn decoded(s: Seq<u8>) -> Seq<char>
    decreases s.len(),
{
    if s.len() == 0 {
        Seq::empty()
    } else if valid_first_scalar(s) && length_of_first_scalar(s) <= s.len() {
        seq![decode_first_scalar(s) as char] + decoded(pop_first_scalar(s))
    } else {
        seq![STRAY] + decoded(s.skip(1))
    }
}

/// The bytes of a text are decoded to that text.
pub proof fn law_text_comes_back(t: Seq<char>)
    ensures
        decoded(encode_utf8(t)) == t,
    decreases t.len(),
{
    let s = encode_utf8(t);
    if t.len() == 0 {
        assert(decoded(s) =~= t);
    } else {
        encode_utf8_first_scalar(t);
        let rest = t.drop_first();
        law_text_comes_back(rest);
        assert(s == encode_scalar(t[0] as u32) + encode_utf8(rest));
        assert(pop_first_scalar(s) =~= encode_utf8(rest));
        vstd::utf8::char_u32_cast(t[0], decode_first_scalar(s));
        assert(decoded(s) =~= seq![t[0]] + rest);
        assert(seq![t[0]] + rest =~= t);
    }
}

/// A byte below 128 in the bytes of a text is one of its characters.
pub proof fn lemma_ascii_bytes(t: Seq<char>, i: int)
    requires
        0 <= i < encode_utf8(t).len(),
        encode_utf8(t)[i] < 128,
    ensures
        t.contains(encode_utf8(t)[i] as char),
    decreases t.len(),
{
    if t.len() > 0 {
        let s = encode_utf8(t);
        let c = t[0] as u32;
        let head = encode_scalar(c);
        let rest = t.drop_first();
        assert(s == head + encode_utf8(rest));
        if i < head.len() {
            assert(s[i] == head[i]);
            vstd::utf8::char_is_scalar(t[0]);
            assert(c <= 0x7f ==> (c & 0x7f) as u8 == c) by (bit_vector);
            assert(0xC0u8 | ((c >> 6) & 0x1F) as u8 >= 128) by (bit_vector);
            assert(0xE0u8 | ((c >> 12) & 0x0F) as u8 >= 128) by (bit_vector);
            assert(0xF0u8 | ((c >> 18) & 0x7) as u8 >= 128) by (bit_vector);
            assert(0x80u8 | (c & 0x3F) as u8 >= 128) by (bit_vector);
            assert(0x80u8 | ((c >> 6) & 0x3F) as u8 >= 128) by (bit_vector);
            assert(0x80u8 | ((c >> 12) & 0x3F) as u8 >= 128) by (bit_vector);
            assert(vstd::utf8::has_width_1_encoding(c)) by {
                if vstd::utf8::has_width_2_encoding(c) {
                    assert(i == 0 || i == 1);
                } else if vstd::utf8::has_width_3_encoding(c) {
                    assert(i == 0 || i == 1 || i == 2);
                } else if vstd::utf8::has_width_4_encoding(c) {
                    assert(i == 0 || i == 1 || i == 2 || i == 3);
                }
            }
            assert(s[i] == c);
            vstd::utf8::char_u32_cast(t[0], c);
            assert(c as char == t[0]);
            assert(s[i] as int as char == c as int as char);
            assert(t.contains(t[0]));
        } else {
            lemma_ascii_bytes(rest, i - head.len());
            let x = s[i] as char;
            let j = choose|j: int| 0 <= j < rest.len() && rest[j] == x;
            assert(t[j + 1] == x);
        }
    }
}

/// `char::from_u32`: the character with a number, where the number is that of a character.
pub assume_specification[ char::from_u32 ](i: u32) -> (r: Option<char>)
    ensures
        r == if is_scalar(i) {
            Some(i as char)
        } else {
            None
        },
;

/// The character that begins at a place of some bytes and how many bytes it takes, where one does.
fn first_char(s: &Vec<u8>, i: usize) -> (r: Option<(char, usize)>)
    requires
        i < s@.len(),
    ensures
        ({
            let rest = s@.skip(i as int);
            match r {
                Some((c, n)) => valid_first_scalar(rest) && n == length_of_first_scalar(rest) && 1 <= n <= rest.len() && c
                    == decode_first_scalar(rest) as char,
                None => !(valid_first_scalar(rest) && length_of_first_scalar(rest) <= rest.len()),
            }
        }),
{
    let ghost rest = s@.skip(i as int);
    let left: usize = s.len() - i;
    let a: u8 = s[i];
    assert(rest[0] == a);
    let (point, n): (u32, usize) = if a <= 0x7f {
        ((a & 0x7F) as u32, 1)
    } else if 0xc0 <= a && a <= 0xdf && left >= 2 && follows(s[i + 1]) {
        assert(rest[1] == s@[i + 1]);
        ((((a & 0x1F) as u32) << 6) | ((s[i + 1] & 0x3f) as u32), 2)
    } else if 0xe0 <= a && a <= 0xef && left >= 3 && follows(s[i + 1]) && follows(s[i + 2]) {
        assert(rest[1] == s@[i + 1] && rest[2] == s@[i + 2]);
        ((((a & 0x0F) as u32) << 12) | (((s[i + 1] & 0x3f) as u32) << 6) | ((s[i + 2] & 0x3f) as u32), 3)
    } else if 0xf0 <= a && a <= 0xf7 && left >= 4 && follows(s[i + 1]) && follows(s[i + 2]) && follows(s[i + 3]) {
        assert(rest[1] == s@[i + 1] && rest[2] == s@[i + 2] && rest[3] == s@[i + 3]);
        (
            (((a & 0x07) as u32) << 18) | (((s[i + 1] & 0x3f) as u32) << 12) | (((s[i + 2] & 0x3f) as u32) << 6) | ((s[i + 3]
                & 0x3f) as u32),
            4,
        )
    } else {
        proof {
            if left >= 2 {
                assert(rest[1] == s@[i + 1]);
            }
            if left >= 3 {
                assert(rest[2] == s@[i + 2]);
            }
            if left >= 4 {
                assert(rest[3] == s@[i + 3]);
            }
        }
        return None;
    };
    if (n == 2 && point < 0x80) || (n == 3 && point < 0x800) || (n == 4 && !(0x10000 <= point && point <= 0x10ffff)) || (
    0xD800 <= point && point <= 0xDFFF) {
        return None;
    }
    proof {
        assert((a & 0x7F) <= 0x7f) by (bit_vector);
        if n == 2 {
            let b: u8 = rest[1];
            assert((((a & 0x1F) as u32) << 6) | ((b & 0x3f) as u32) <= 0x7ff) by (bit_vector);
        }
        if n == 3 {
            let b: u8 = rest[1];
            let c: u8 = rest[2];
            assert((((a & 0x0F) as u32) << 12) | (((b & 0x3f) as u32) << 6) | ((c & 0x3f) as u32) <= 0xffff) by (bit_vector);
        }
        assert(is_scalar(point));
    }
    match char::from_u32(point) {
        Some(c) => Some((c, n)),
        None => None,
    }
}

/// The byte goes on with a character.
fn follows(x: u8) -> (r: bool)
    ensures
        r == vstd::utf8::is_continuation_byte(x),
{
    0x80 <= x && x <= 0xbf
}

/// The text that bytes encode.
pub fn decode(s: &Vec<u8>) -> (r: String)
    ensures
        r@ == decoded(s@),
{
    let mut out = String::new();
    let mut i: usize = 0;
    assert(s@.skip(0) =~= s@);
    assert(out@ + decoded(s@) =~= decoded(s@));
    while i < s.len()
        invariant
            i <= s@.len(),
            out@ + decoded(s@.skip(i as int)) == decoded(s@),
        decreases s.len() - i,
    {
        let ghost rest = s@.skip(i as int);
        let ghost was = out@;
        match first_char(s, i) {
            Some((c, n)) => {
                out.push(c);
                i += n;
                assert(pop_first_scalar(rest) =~= s@.skip(i as int));
                assert(was + decoded(rest) =~= out@ + decoded(s@.skip(i as int)));
            },
            None => {
                out.push(STRAY);
                i += 1;
                assert(rest.skip(1) =~= s@.skip(i as int));
                assert(was + decoded(rest) =~= out@ + decoded(s@.skip(i as int)));
            },
        }
    }
    assert(out@ + decoded(s@.skip(i as int)) =~= out@);
    out
}

} // verus!
