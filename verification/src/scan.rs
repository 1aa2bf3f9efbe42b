//! A byte scanner with line counting: what the importers read their sources with.
use vstd::prelude::*;
use vstd::utf8::encode_utf8;

use crate::utf8::{decode, decoded, law_text_comes_back, lemma_ascii_bytes};

verus! {

/// A place in a source: how many bytes and how many line ends lie before it.
pub struct Cur {
    pub pos: int,
    pub newlines: int,
}

/// The start of a source.
pub open spec fn start() -> Cur {
    Cur { pos: 0, newlines: 0 }
}

/// The byte at a place, if there is one.
pub open spec fn at(b: Seq<u8>, c: Cur) -> Option<u8> {
    if 0 <= c.pos < b.len() {
        Some(b[c.pos])
    } else {
        None
    }
}

/// The place one byte further on; the end stays where it is.
pub open spec fn next(b: Seq<u8>, c: Cur) -> Cur {
    if 0 <= c.pos < b.len() {
        Cur {
            pos: c.pos + 1,
            newlines: if b[c.pos] == 10 {
                c.newlines + 1
            } else {
                c.newlines
            },
        }
    } else {
        c
    }
}

/// The number of the line that a place is on, counting from one.
pub open spec fn line_at(c: Cur) -> int {
    if c.newlines < usize::MAX {
        c.newlines + 1
    } else {
        usize::MAX as int
    }
}

/// Sorts of bytes.
#[derive(Debug, Clone, Copy, PartialEq, Eq, Structural)]
pub enum Class {
    /// Space, tab, line feed, form feed, carriage return.
    Space,
    /// Letters, digits and `_`.
    Word,
    /// Letters, digits, `_` and `-`.
    DashedWord,
    /// Digits.
    Digit,
    /// Digits and `.`.
    Decimal,
    /// Hexadecimal digits.
    Hex,
    /// Anything but a line feed.
    InLine,
    /// `.`.
    Dot,
}

/// An ASCII capital letter.
pub open spec fn upper(x: u8) -> bool {
    65 <= x <= 90
}

/// An ASCII letter.
pub open spec fn letter(x: u8) -> bool {
    65 <= x <= 90 || 97 <= x <= 122
}

/// An ASCII digit.
pub open spec fn digit(x: u8) -> bool {
    48 <= x <= 57
}

/// The byte is of the given sort.
pub open spec fn in_class(k: Class, x: u8) -> bool {
    match k {
        Class::Space => x == 32 || x == 9 || x == 10 || x == 12 || x == 13,
        Class::Word => letter(x) || digit(x) || x == 95,
        Class::DashedWord => letter(x) || digit(x) || x == 95 || x == 45,
        Class::Digit => digit(x),
        Class::Decimal => digit(x) || x == 46,
        Class::Hex => digit(x) || 65 <= x <= 70 || 97 <= x <= 102,
        Class::InLine => x != 10,
        Class::Dot => x == 46,
    }
}

/// `true` exactly when the byte is of the given sort.
pub fn is_class(k: Class, x: u8) -> (r: bool)
    ensures
        r == in_class(k, x),
{
    match k {
        Class::Space => x == 32 || x == 9 || x == 10 || x == 12 || x == 13,
        Class::Word => (65 <= x && x <= 90) || (97 <= x && x <= 122) || (48 <= x && x <= 57) || x == 95,
        Class::DashedWord => (65 <= x && x <= 90) || (97 <= x && x <= 122) || (48 <= x && x <= 57)
            || x == 95 || x == 45,
        Class::Digit => 48 <= x && x <= 57,
        Class::Decimal => (48 <= x && x <= 57) || x == 46,
        Class::Hex => (48 <= x && x <= 57) || (65 <= x && x <= 70) || (97 <= x && x <= 102),
        Class::InLine => x != 10,
        Class::Dot => x == 46,
    }
}

/// The end of the run of bytes of one sort that begins at a place.
pub open spec fn run_end(b: Seq<u8>, c: Cur, k: Class) -> Cur
    decreases b.len() - c.pos,
{
    if 0 <= c.pos < b.len() && in_class(k, b[c.pos]) {
        run_end(b, next(b, c), k)
    } else {
        c
    }
}

/// Bytes as characters with the same numbers, which is what the bytes of words and numbers are.
pub open spec fn latin(s: Seq<u8>) -> Seq<char> {
    s.map_values(|x: u8| x as char)
}

/// The word or number between two places.
pub open spec fn between(b: Seq<u8>, from: Cur, to: Cur) -> Seq<char> {
    latin(b.subrange(from.pos, to.pos))
}

/// A run does not go backwards, nor past the end.
pub proof fn lemma_run_end(b: Seq<u8>, c: Cur, k: Class)
    requires
        0 <= c.pos <= b.len(),
    ensures
        c.pos <= run_end(b, c, k).pos <= b.len(),
        run_end(b, c, k).newlines - c.newlines <= run_end(b, c, k).pos - c.pos,
        c.newlines <= run_end(b, c, k).newlines,
        c.pos < b.len() && in_class(k, b[c.pos]) ==> run_end(b, c, k).pos > c.pos,
        run_end(b, c, k).pos < b.len() ==> !in_class(k, b[run_end(b, c, k).pos]),
    decreases b.len() - c.pos,
{
    if c.pos < b.len() && in_class(k, b[c.pos]) {
        lemma_run_end(b, next(b, c), k);
    }
}

/// Two slashes begin at the place.
pub open spec fn slashes(b: Seq<u8>, c: Cur) -> bool {
    0 <= c.pos && c.pos + 1 < b.len() && b[c.pos] == 47 && b[c.pos + 1] == 47
}

/// The place after blanks and line comments.
pub open spec fn trivia_end(b: Seq<u8>, c: Cur) -> Cur
    decreases b.len() - c.pos,
{
    let c1 = run_end(b, c, Class::Space);
    if 0 <= c.pos <= c1.pos && slashes(b, c1) && c1.pos < run_end(b, c1, Class::InLine).pos <= b.len() {
        trivia_end(b, run_end(b, c1, Class::InLine))
    } else {
        c1
    }
}

/// How a string literal was cut short.
#[derive(Debug, Clone, Copy, PartialEq, Eq, Structural)]
pub enum Cut {
    /// The source ends inside the literal.
    InText,
    /// The source ends after a backslash.
    InEscape,
}

/// The rest of a string literal after its opening quote and after `acc`: its text and the place
/// behind its closing quote, or how and where it is cut short. A backslash makes `n` a line feed,
/// `t` a tab where `tabs` is set, and takes any other byte as it is. The bytes are those of a text
/// in UTF-8.
pub open spec fn literal(b: Seq<u8>, c: Cur, quote: u8, tabs: bool, acc: Seq<u8>) -> Result<
    (Seq<char>, Cur),
    (Cut, Cur),
>
    decreases b.len() - c.pos,
{
    match at(b, c) {
        None => Err((Cut::InText, c)),
        Some(x) => {
            let c1 = next(b, c);
            if x == quote {
                Ok((decoded(acc), c1))
            } else if x == 92 {
                match at(b, c1) {
                    None => Err((Cut::InEscape, c1)),
                    Some(y) => literal(b, next(b, c1), quote, tabs, acc.push(escaped(y, tabs))),
                }
            } else {
                literal(b, c1, quote, tabs, acc.push(x))
            }
        },
    }
}

/// The byte that a backslash and a byte stand for.
pub open spec fn escaped(y: u8, tabs: bool) -> u8 {
    if y == 110 {
        10
    } else if y == 116 && tabs {
        9
    } else {
        y
    }
}

proof fn lemma_plain_literal(b: Seq<u8>, c: Cur, quote: u8, tabs: bool, acc: Seq<u8>, end: int)
    requires
        0 <= c.pos <= end < b.len(),
        b[end] == quote,
        forall|i: int| c.pos <= i < end ==> #[trigger] b[i] != quote && b[i] != 92,
    ensures
        literal(b, c, quote, tabs, acc) matches Ok((text, d)) && text == decoded(acc + b.subrange(c.pos, end)) && d.pos
            == end + 1,
    decreases end - c.pos,
{
    if c.pos < end {
        lemma_plain_literal(b, next(b, c), quote, tabs, acc.push(b[c.pos]), end);
        assert(acc.push(b[c.pos]) + b.subrange(c.pos + 1, end) =~= acc + b.subrange(c.pos, end));
    } else {
        assert(acc + b.subrange(c.pos, end) =~= acc);
    }
}

/// A string literal that holds neither its quote nor a backslash gives the text between its quotes,
/// in whatever script it is written.
pub proof fn law_literal_gives_its_text(b: Seq<u8>, c: Cur, quote: u8, tabs: bool, text: Seq<char>)
    requires
        0 <= c.pos,
        quote < 128,
        !text.contains(quote as char),
        !text.contains('\\'),
        c.pos + encode_utf8(text).len() < b.len(),
        b.subrange(c.pos, c.pos + encode_utf8(text).len()) == encode_utf8(text),
        b[c.pos + encode_utf8(text).len()] == quote,
    ensures
        literal(b, c, quote, tabs, Seq::empty()) matches Ok((r, d)) && r == text && d.pos == c.pos + encode_utf8(
            text,
        ).len() + 1,
{
    let s = encode_utf8(text);
    let end = c.pos + s.len();
    assert forall|i: int| c.pos <= i < end implies #[trigger] b[i] != quote && b[i] != 92 by {
        assert(b[i] == s[i - c.pos]);
        if b[i] < 128 {
            lemma_ascii_bytes(text, i - c.pos);
        }
    }
    lemma_plain_literal(b, c, quote, tabs, Seq::empty(), end);
    assert(Seq::<u8>::empty() + b.subrange(c.pos, end) =~= s);
    law_text_comes_back(text);
}

/// The place behind the bracket that closes `depth` open ones, or the end of the source.
pub open spec fn closing(b: Seq<u8>, c: Cur, open: u8, close: u8, depth: int) -> Cur
    decreases b.len() - c.pos,
{
    match at(b, c) {
        None => c,
        Some(x) => {
            let c1 = next(b, c);
            if x == open {
                closing(b, c1, open, close, depth + 1)
            } else if x == close {
                if depth <= 1 {
                    c1
                } else {
                    closing(b, c1, open, close, depth - 1)
                }
            } else {
                closing(b, c1, open, close, depth)
            }
        },
    }
}

/// The place behind the next byte `stop`, or the end of the source.
pub open spec fn behind(b: Seq<u8>, c: Cur, stop: u8) -> Cur
    decreases b.len() - c.pos,
{
    match at(b, c) {
        None => c,
        Some(x) => if x == stop {
            next(b, c)
        } else {
            behind(b, next(b, c), stop)
        },
    }
}

/// A scanner: a source and a place in it.
#[derive(Debug)]
pub struct Scanner<'a> {
    src: &'a [u8],
    pos: usize,
    newlines: usize,
}

impl<'a> Scanner<'a> {
    /// The bytes of the source.
    pub closed spec fn bytes(self) -> Seq<u8> {
        self.src@
    }

    /// The place that the scanner has reached.
    pub closed spec fn cur(self) -> Cur {
        Cur { pos: self.pos as int, newlines: self.newlines as int }
    }

    #[verifier::type_invariant]
    spec fn inside(self) -> bool {
        self.pos <= self.src@.len() && self.newlines <= self.pos
    }

    /// A scanner at the start of a source.
    pub fn new(src: &'a str) -> (r: Scanner<'a>)
        ensures
            r.bytes() == encode_utf8(src@),
            r.cur() == start(),
    {
        Scanner { src: src.as_bytes(), pos: 0, newlines: 0 }
    }

    /// States that the place lies in the source.
    pub fn bounds(&self)
        ensures
            0 <= self.cur().pos <= self.bytes().len(),
            0 <= self.cur().newlines <= self.cur().pos,
            self.bytes().len() <= usize::MAX,
    {
        proof {
            use_type_invariant(self);
        }
        let n: usize = self.src.len();
        assert(n == self.src@.len());
    }

    /// The byte at the place, if there is one.
    pub fn peek(&self) -> (r: Option<u8>)
        ensures
            r == at(self.bytes(), self.cur()),
            0 <= self.cur().pos <= self.bytes().len(),
    {
        proof {
            use_type_invariant(self);
        }
        if self.pos < self.src.len() {
            Some(self.src[self.pos])
        } else {
            None
        }
    }

    /// The byte after the place, if there is one.
    pub fn peek_second(&self) -> (r: Option<u8>)
        ensures
            r == (if self.cur().pos + 1 < self.bytes().len() {
                Some(self.bytes()[self.cur().pos + 1])
            } else {
                None
            }),
    {
        proof {
            use_type_invariant(self);
        }
        if self.pos < self.src.len() && self.pos + 1 < self.src.len() {
            Some(self.src[self.pos + 1])
        } else {
            None
        }
    }

    /// The number of the current line.
    pub fn line(&self) -> (r: usize)
        ensures
            r == line_at(self.cur()),
    {
        if self.newlines < usize::MAX {
            self.newlines + 1
        } else {
            usize::MAX
        }
    }

    /// How many bytes lie before the place.
    pub fn place(&self) -> (r: usize)
        ensures
            r == self.cur().pos,
    {
        self.pos
    }

    /// Takes one byte.
    pub fn advance(&mut self) -> (r: Option<u8>)
        ensures
            r == at(old(self).bytes(), old(self).cur()),
            final(self).bytes() == old(self).bytes(),
            final(self).cur() == next(old(self).bytes(), old(self).cur()),
    {
        proof {
            use_type_invariant(&*self);
        }
        if self.pos < self.src.len() {
            let x: u8 = self.src[self.pos];
            let pos: usize = self.pos + 1;
            let newlines: usize = if x == 10 {
                self.newlines + 1
            } else {
                self.newlines
            };
            *self = Scanner { src: self.src, pos, newlines };
            Some(x)
        } else {
            None
        }
    }

    /// Goes back to an earlier place, given by another scanner of the same source.
    pub fn rewind(&mut self, to: &Scanner<'a>)
        requires
            old(self).bytes() == to.bytes(),
        ensures
            final(self).bytes() == old(self).bytes(),
            final(self).cur() == to.cur(),
    {
        proof {
            use_type_invariant(to);
        }
        *self = Scanner { src: to.src, pos: to.pos, newlines: to.newlines };
    }

    /// A scanner at the same place.
    pub fn mark(&self) -> (r: Scanner<'a>)
        ensures
            r.bytes() == self.bytes(),
            r.cur() == self.cur(),
    {
        proof {
            use_type_invariant(self);
        }
        Scanner { src: self.src, pos: self.pos, newlines: self.newlines }
    }

    /// Takes the run of bytes of one sort that begins here.
    pub fn skip_run(&mut self, k: Class)
        ensures
            final(self).bytes() == old(self).bytes(),
            final(self).cur() == run_end(old(self).bytes(), old(self).cur(), k),
            old(self).cur().pos <= final(self).cur().pos,
    {
        proof {
            use_type_invariant(&*self);
            lemma_run_end(self.bytes(), self.cur(), k);
        }
        let ghost b = self.bytes();
        let ghost goal = run_end(b, self.cur(), k);
        loop
            invariant
                self.bytes() == b,
                run_end(b, self.cur(), k) == goal,
            ensures
                self.bytes() == b,
                self.cur() == goal,
            decreases b.len() - self.cur().pos,
        {
            match self.peek() {
                None => {
                    break;
                },
                Some(x) => {
                    if !is_class(k, x) {
                        break;
                    }
                    self.advance();
                },
            }
        }
    }

    /// Takes the run of bytes of one sort that begins here, and gives it as text.
    pub fn read_run(&mut self, k: Class) -> (r: String)
        ensures
            final(self).bytes() == old(self).bytes(),
            final(self).cur() == run_end(old(self).bytes(), old(self).cur(), k),
            r@ == between(old(self).bytes(), old(self).cur(), final(self).cur()),
            old(self).cur().pos <= final(self).cur().pos <= old(self).bytes().len(),
            0 <= old(self).cur().pos,
            r@.len() == final(self).cur().pos - old(self).cur().pos,
    {
        proof {
            use_type_invariant(&*self);
            lemma_run_end(self.bytes(), self.cur(), k);
        }
        let ghost b = self.bytes();
        let ghost from = self.cur();
        let ghost goal = run_end(b, from, k);
        let mut out = String::new();
        loop
            invariant
                self.bytes() == b,
                0 <= from.pos <= self.cur().pos <= b.len(),
                run_end(b, self.cur(), k) == goal,
                out@ == between(b, from, self.cur()),
            ensures
                self.bytes() == b,
                self.cur() == goal,
                out@ == between(b, from, goal),
            decreases b.len() - self.cur().pos,
        {
            match self.peek() {
                None => {
                    break;
                },
                Some(x) => {
                    if !is_class(k, x) {
                        break;
                    }
                    let ghost c = self.cur();
                    self.advance();
                    out.push(x as char);
                    assert(out@ =~= between(b, from, self.cur()));
                },
            }
        }
        out
    }

    /// Takes blanks and line comments.
    pub fn skip_trivia(&mut self)
        ensures
            final(self).bytes() == old(self).bytes(),
            final(self).cur() == trivia_end(old(self).bytes(), old(self).cur()),
            old(self).cur().pos <= final(self).cur().pos,
    {
        let ghost b = self.bytes();
        let ghost from = self.cur();
        let ghost goal = trivia_end(b, from);
        self.bounds();
        loop
            invariant
                self.bytes() == b,
                0 <= from.pos <= self.cur().pos <= b.len(),
                trivia_end(b, self.cur()) == goal,
            ensures
                self.bytes() == b,
                self.cur() == goal,
                from.pos <= self.cur().pos,
            decreases b.len() - self.cur().pos,
        {
            proof {
                lemma_run_end(b, self.cur(), Class::Space);
            }
            self.skip_run(Class::Space);
            let first = self.peek();
            let second = self.peek_second();
            if first == Some(47u8) && second == Some(47u8) {
                proof {
                    lemma_run_end(b, self.cur(), Class::InLine);
                }
                self.skip_run(Class::InLine);
            } else {
                break;
            }
        }
    }

    /// Takes the rest of a string literal after its opening quote.
    pub fn read_literal(&mut self, quote: u8, tabs: bool) -> (r: Result<String, Cut>)
        ensures
            final(self).bytes() == old(self).bytes(),
            match literal(old(self).bytes(), old(self).cur(), quote, tabs, Seq::empty()) {
                Ok((text, c)) => r is Ok && r->Ok_0@ == text && final(self).cur() == c,
                Err((cut, c)) => r == Err::<String, Cut>(cut) && final(self).cur() == c,
            },
            old(self).cur().pos <= final(self).cur().pos,
    {
        let ghost b = self.bytes();
        let ghost from = self.cur();
        let ghost goal = literal(b, from, quote, tabs, Seq::empty());
        let mut out: Vec<u8> = Vec::new();
        self.bounds();
        loop
            invariant
                self.bytes() == b,
                0 <= from.pos <= self.cur().pos <= b.len(),
                literal(b, self.cur(), quote, tabs, out@) == goal,
                goal == literal(old(self).bytes(), old(self).cur(), quote, tabs, Seq::empty()),
                b == old(self).bytes(),
                from == old(self).cur(),
            decreases b.len() - self.cur().pos,
        {
            match self.advance() {
                None => {
                    return Err(Cut::InText);
                },
                Some(x) => {
                    if x == quote {
                        return Ok(decode(&out));
                    }
                    if x == 92 {
                        match self.advance() {
                            None => {
                                return Err(Cut::InEscape);
                            },
                            Some(y) => {
                                if y == 110 {
                                    out.push(10);
                                } else if y == 116 && tabs {
                                    out.push(9);
                                } else {
                                    out.push(y);
                                }
                            },
                        }
                    } else {
                        out.push(x);
                    }
                },
            }
        }
    }

    /// Takes everything up to the bracket that closes the one already taken.
    pub fn skip_closing(&mut self, open: u8, close: u8)
        ensures
            final(self).bytes() == old(self).bytes(),
            final(self).cur() == closing(old(self).bytes(), old(self).cur(), open, close, 1),
            old(self).cur().pos <= final(self).cur().pos,
    {
        let ghost b = self.bytes();
        let ghost from = self.cur();
        let ghost goal = closing(b, from, open, close, 1);
        let mut depth: usize = 1;
        self.bounds();
        loop
            invariant_except_break
                self.bytes() == b,
                0 <= from.pos <= self.cur().pos <= b.len(),
                b.len() <= usize::MAX,
                1 <= depth <= 1 + self.cur().pos - from.pos,
                closing(b, self.cur(), open, close, depth as int) == goal,
            ensures
                self.bytes() == b,
                self.cur() == goal,
                from.pos <= self.cur().pos,
            decreases b.len() - self.cur().pos,
        {
            match self.advance() {
                None => {
                    break;
                },
                Some(x) => {
                    if x == open {
                        if depth == usize::MAX {
                            proof {
                                assert(self.cur().pos == b.len());
                                assert(closing(b, self.cur(), open, close, depth + 1) == self.cur());
                            }
                            break;
                        }
                        depth = depth + 1;
                    } else if x == close {
                        if depth == 1 {
                            break;
                        }
                        depth = depth - 1;
                    }
                },
            }
        }
    }

    /// Takes everything up to and with the next byte `stop`.
    pub fn skip_behind(&mut self, stop: u8)
        ensures
            final(self).bytes() == old(self).bytes(),
            final(self).cur() == behind(old(self).bytes(), old(self).cur(), stop),
            old(self).cur().pos <= final(self).cur().pos,
    {
        let ghost b = self.bytes();
        let ghost from = self.cur();
        let ghost goal = behind(b, from, stop);
        self.bounds();
        loop
            invariant_except_break
                self.bytes() == b,
                0 <= from.pos <= self.cur().pos <= b.len(),
                behind(b, self.cur(), stop) == goal,
            ensures
                self.bytes() == b,
                self.cur() == goal,
                from.pos <= self.cur().pos,
            decreases b.len() - self.cur().pos,
        {
            match self.advance() {
                None => {
                    break;
                },
                Some(x) => {
                    if x == stop {
                        break;
                    }
                },
            }
        }
    }
}

/// The value of a hexadecimal digit.
pub open spec fn hex_digit(c: char) -> int {
    let x = c as int;
    if 48 <= x <= 57 {
        x - 48
    } else if 65 <= x <= 70 {
        x - 55
    } else {
        x - 87
    }
}

/// The character is a hexadecimal digit.
pub open spec fn is_hex(c: char) -> bool {
    let x = c as int;
    48 <= x <= 57 || 65 <= x <= 70 || 97 <= x <= 102
}

/// The number that a row of hexadecimal digits stands for.
pub open spec fn hex_value(s: Seq<char>) -> int
    decreases s.len(),
{
    if s.len() == 0 {
        0
    } else {
        hex_value(s.drop_last()) * 16 + hex_digit(s.last())
    }
}

/// The text is a number of at most 32 bits in hexadecimal digits.
pub open spec fn is_hex_u32(s: Seq<char>) -> bool {
    s.len() > 0 && (forall|i: int| 0 <= i < s.len() ==> is_hex(#[trigger] s[i])) && hex_value(s) <= u32::MAX
}

proof fn lemma_hex_grows(s: Seq<char>, i: int)
    requires
        0 <= i <= s.len(),
        forall|k: int| 0 <= k < s.len() ==> is_hex(#[trigger] s[k]),
    ensures
        0 <= hex_value(s.take(i)) <= hex_value(s),
    decreases s.len(),
{
    if s.len() == 0 {
        assert(s.take(i) =~= s);
    } else {
        let d = s.drop_last();
        assert forall|k: int| 0 <= k < d.len() implies is_hex(#[trigger] d[k]) by {
            assert(d[k] == s[k]);
        }
        assert(s.last() == s[s.len() - 1]);
        if i < s.len() {
            lemma_hex_grows(d, i);
            assert(d.take(i) =~= s.take(i));
        } else {
            lemma_hex_grows(d, d.len() as int);
            assert(d.take(d.len() as int) =~= d);
            assert(s.take(i) =~= s);
        }
    }
}

/// The number that a text stands for in hexadecimal, where it is one of at most 32 bits.
pub fn parse_hex(s: &str) -> (r: Option<u32>)
    ensures
        r is Some <==> is_hex_u32(s@),
        r matches Some(v) ==> v == hex_value(s@),
{
    let cs = crate::text::chars_of(s);
    if cs.len() == 0 {
        return None;
    }
    let mut i: usize = 0;
    while i < cs.len()
        invariant
            cs@ == s@,
            i <= cs@.len(),
            forall|k: int| 0 <= k < i ==> is_hex(#[trigger] cs@[k]),
        decreases cs.len() - i,
    {
        let x: u32 = crate::text::code(cs[i]);
        if !((48 <= x && x <= 57) || (65 <= x && x <= 70) || (97 <= x && x <= 102)) {
            assert(!is_hex(cs@[i as int]));
            return None;
        }
        i += 1;
    }
    let mut v: u32 = 0;
    let mut j: usize = 0;
    assert(cs@.take(0) =~= Seq::<char>::empty());
    while j < cs.len()
        invariant
            cs@ == s@,
            j <= cs@.len(),
            forall|k: int| 0 <= k < cs@.len() ==> is_hex(#[trigger] cs@[k]),
            v == hex_value(cs@.take(j as int)),
        decreases cs.len() - j,
    {
        let x: u32 = crate::text::code(cs[j]);
        let d: u32 = if x <= 57 {
            x - 48
        } else if x <= 70 {
            x - 55
        } else {
            x - 87
        };
        assert(cs@.take(j + 1).drop_last() =~= cs@.take(j as int));
        assert(d == hex_digit(cs@[j as int]));
        let wide: u64 = (v as u64) * 16 + (d as u64);
        assert(wide == hex_value(cs@.take(j + 1)));
        if wide > 0xFFFF_FFFF {
            proof {
                lemma_hex_grows(cs@, j + 1);
            }
            return None;
        }
        v = wide as u32;
        j += 1;
    }
    assert(cs@.take(j as int) =~= cs@);
    Some(v)
}

} // verus!
