//! Slint sources: `KindName { prop-name: value; Child { } }` read into a document, with
//! `component` declarations expanded where they are used.
use vstd::prelude::*;
use vstd::utf8::encode_utf8;

use crate::float::{bits, low_half, narrow, read_or_zero, steady, unit, FloatOp, FloatQuery, Unit};
use crate::ir::{empty_doc, DocModel, Document, Mutation, MutationModel};
use crate::lowering::{apply_system, create, created, sys};
use crate::lowering_law::{
    lemma_empty_sprouting, lemma_hung_sprouts, lemma_sprouting_orderly, orderly, rooted_in, sprouting,
};
use crate::node::NodeId;
use crate::scan::{
    at, behind, between, closing, digit, hex_value, is_class, line_at, literal, next, parse_hex,
    run_end, start, trivia_end, Class, Cur, Cut, Scanner,
};
use crate::text::{chars_of, copy, decimal, decimal_text, join, same};
use crate::text_map::TextMap;
use crate::value::{Value, ValueModel};

verus! {

/// A source that cannot be read, and the line where that showed.
#[derive(Debug)]
pub struct SlintImportError {
    pub message: String,
    pub line: usize,
}

/// A [`SlintImportError`] as mathematics.
pub struct SlintFault {
    pub message: Seq<char>,
    pub line: int,
}

impl View for SlintImportError {
    type V = SlintFault;

    open spec fn view(&self) -> SlintFault {
        SlintFault { message: self.message@, line: self.line as int }
    }
}

impl SlintImportError {
    /// The error as one line of text.
    pub fn to_text(&self) -> (r: String)
        ensures
            r@ == "slint-import error at line "@ + decimal(self@.line as nat) + ": "@ + self@.message,
    {
        let mut out = copy("slint-import error at line ");
        let n = decimal_text(self.line as u64);
        out.append(n.as_str());
        out.append(": ");
        out.append(self.message.as_str());
        out
    }
}

/// A construct that has no place in a document and was left out, and the line where it began.
#[derive(Debug, Clone, PartialEq, Eq)]
pub struct Unsupported {
    pub line: usize,
    pub text: String,
}

/// An [`Unsupported`] as mathematics.
pub struct Omission {
    pub line: int,
    pub text: Seq<char>,
}

impl View for Unsupported {
    type V = Omission;

    open spec fn view(&self) -> Omission {
        Omission { line: self.line as int, text: self.text@ }
    }
}

/// The models of a list of omissions.
pub open spec fn omissions(s: Seq<Unsupported>) -> Seq<Omission> {
    s.map_values(|u: Unsupported| u@)
}

fn note(unsupported: &mut Vec<Unsupported>, line: usize, text: String)
    ensures
        omissions(final(unsupported)@) == omissions(old(unsupported)@).push(
            Omission { line: line as int, text: text@ },
        ),
{
    let ghost before = unsupported@;
    unsupported.push(Unsupported { line, text });
    assert(omissions(unsupported@) =~= omissions(before).push(
        Omission { line: line as int, text: text@ },
    ));
}

/// A document read from a source, with what was left out.
#[derive(Debug)]
pub struct ImportReport {
    pub document: Document,
    pub unsupported: Vec<Unsupported>,
}

/// A parsed value. Numbers are kept as they were written.
#[derive(Debug)]
enum SlintValue {
    Px(String),
    Color(u32),
    Str(String),
    Bool(bool),
    Float(String),
    Ident(String),
}

/// A parsed element.
#[derive(Debug)]
struct SlintElement {
    kind: String,
    props: Vec<(String, SlintValue)>,
    children: Vec<SlintElement>,
}

/// A parsed value as mathematics.
pub enum SlintLiteral {
    Px(Seq<char>),
    Color(u32),
    Str(Seq<char>),
    Bool(bool),
    Float(Seq<char>),
    Ident(Seq<char>),
}

/// A parsed element as mathematics.
pub struct SlintNode {
    pub kind: Seq<char>,
    pub props: Seq<(Seq<char>, SlintLiteral)>,
    pub children: Seq<SlintNode>,
}

/// A parsed source: its components by name, its elements, and what was left out.
pub struct SlintSource {
    pub components: Map<Seq<char>, SlintNode>,
    pub elements: Seq<SlintNode>,
    pub unsupported: Seq<Omission>,
}

spec fn literal_of(v: SlintValue) -> SlintLiteral {
    match v {
        SlintValue::Px(s) => SlintLiteral::Px(s@),
        SlintValue::Color(c) => SlintLiteral::Color(c),
        SlintValue::Str(s) => SlintLiteral::Str(s@),
        SlintValue::Bool(x) => SlintLiteral::Bool(x),
        SlintValue::Float(s) => SlintLiteral::Float(s@),
        SlintValue::Ident(s) => SlintLiteral::Ident(s@),
    }
}

spec fn props_of(s: Seq<(String, SlintValue)>) -> Seq<(Seq<char>, SlintLiteral)> {
    s.map_values(|e: (String, SlintValue)| (e.0@, literal_of(e.1)))
}

spec fn node_of(e: SlintElement) -> SlintNode
    decreases e,
{
    SlintNode {
        kind: e.kind@,
        props: props_of(e.props@),
        children: Seq::new(
            e.children@.len(),
            |i: int|
                if 0 <= i < e.children@.len() {
                    node_of(e.children@[i])
                } else {
                    SlintNode { kind: Seq::empty(), props: Seq::empty(), children: Seq::empty() }
                },
        ),
    }
}

spec fn nodes_of(s: Seq<SlintElement>) -> Seq<SlintNode> {
    s.map_values(|e: SlintElement| node_of(e))
}

spec fn components_of(m: Map<Seq<char>, SlintElement>) -> Map<Seq<char>, SlintNode> {
    m.map_values(|e: SlintElement| node_of(e))
}

proof fn lemma_node_of(e: SlintElement)
    ensures
        node_of(e).children == nodes_of(e.children@),
{
    assert(node_of(e).children =~= nodes_of(e.children@));
}

/// A message and the line of a place.
pub open spec fn fault(message: Seq<char>, c: Cur) -> SlintFault {
    SlintFault { message, line: line_at(c) }
}

/// `to` lies behind `from`, inside the source.
pub open spec fn ahead(b: Seq<u8>, from: Cur, to: Cur) -> bool {
    0 <= from.pos < to.pos <= b.len()
}

/// A source place from which nothing was read.
pub open spec fn stuck() -> SlintFault {
    SlintFault { message: Seq::empty(), line: 0 }
}

/// The place behind an expected byte, or what stands there in its place.
pub open spec fn expected(b: Seq<u8>, c: Cur, x: u8) -> Result<Cur, SlintFault> {
    let c1 = trivia_end(b, c);
    match at(b, c1) {
        Some(y) => if y == x {
            Ok(next(b, c1))
        } else {
            Err(
                fault(
                    "expected '"@.push(x as char) + "', got '"@.push(y as char) + "'"@,
                    c1,
                ),
            )
        },
        None => Err(fault("expected '"@.push(x as char) + "', got EOF"@, c1)),
    }
}

/// A colour after its `#`: six digits for an opaque one, eight with the alpha last.
pub open spec fn color_at(b: Seq<u8>, c: Cur) -> Result<(u32, Cur), SlintFault> {
    let c1 = run_end(b, c, Class::Hex);
    let hex = between(b, c, c1);
    if hex.len() == 6 {
        Ok(((hex_value(hex) * 256 + 255) as u32, c1))
    } else if hex.len() == 8 {
        Ok((hex_value(hex) as u32, c1))
    } else {
        Err(fault("hex color must be 6 or 8 digits, got "@ + decimal(hex.len()), c1))
    }
}

/// The value that begins at a place, and the place behind it.
pub open spec fn value_at(b: Seq<u8>, c: Cur) -> Result<(SlintLiteral, Cur), SlintFault> {
    let c0 = trivia_end(b, c);
    match at(b, c0) {
        None => Err(fault("unexpected end of input while reading value"@, c0)),
        Some(x) => if x == 34 {
            match literal(b, next(b, c0), 34, true, Seq::empty()) {
                Ok((text, c1)) => Ok((SlintLiteral::Str(text), c1)),
                Err((Cut::InText, c1)) => Err(fault("unterminated string literal"@, c1)),
                Err((Cut::InEscape, c1)) => Err(fault("unterminated escape"@, c1)),
            }
        } else if x == 35 {
            match color_at(b, next(b, c0)) {
                Ok((v, c1)) => Ok((SlintLiteral::Color(v), c1)),
                Err(e) => Err(e),
            }
        } else if digit(x) {
            let c1 = run_end(b, c0, Class::Decimal);
            let text = between(b, c0, c1);
            let c2 = trivia_end(b, c1);
            if at(b, c2) == Some(112u8) && at(b, next(b, c2)) == Some(120u8) {
                Ok((SlintLiteral::Px(text), next(b, next(b, c2))))
            } else {
                Ok((SlintLiteral::Float(text), c2))
            }
        } else {
            let c1 = run_end(b, c0, Class::DashedWord);
            let word = between(b, c0, c1);
            if word == "true"@ {
                Ok((SlintLiteral::Bool(true), c1))
            } else if word == "false"@ {
                Ok((SlintLiteral::Bool(false), c1))
            } else {
                Ok((SlintLiteral::Ident(word), c1))
            }
        },
    }
}

/// The element body that begins at a place with its opening brace: the element, what was left out
/// so far, and the place behind its closing brace.
pub open spec fn element_at(b: Seq<u8>, c: Cur, kind: Seq<char>, un: Seq<Omission>) -> Result<
    (SlintNode, Seq<Omission>, Cur),
    SlintFault,
>
    decreases b.len() - c.pos, 0int,
{
    match expected(b, c, 123) {
        Err(e) => Err(e),
        Ok(c1) => if ahead(b, c, c1) {
            body_at(
                b,
                c1,
                SlintNode { kind, props: Seq::empty(), children: Seq::empty() },
                un,
            )
        } else {
            Err(stuck())
        },
    }
}

/// The rest of an element body after what `e` holds.
pub open spec fn body_at(b: Seq<u8>, c: Cur, e: SlintNode, un: Seq<Omission>) -> Result<
    (SlintNode, Seq<Omission>, Cur),
    SlintFault,
>
    decreases b.len() - c.pos, 1int,
{
    let c0 = trivia_end(b, c);
    let c1 = run_end(b, c0, Class::DashedWord);
    let key = between(b, c0, c1);
    let c2 = trivia_end(b, c1);
    let c3 = trivia_end(b, next(b, c2));
    if at(b, c0) == Some(125u8) {
        Ok((e, un, next(b, c0)))
    } else if at(b, c0) is None {
        Err(fault("unexpected EOF inside element body"@, c0))
    } else if key.len() == 0 {
        Err(fault("expected property name or child element"@, c1))
    } else if at(b, c2) == Some(58u8) {
        if at(b, c3) == Some(60u8) {
            let c4 = behind(b, c3, 59);
            if ahead(b, c, c4) {
                body_at(
                    b,
                    c4,
                    e,
                    un.push(
                        Omission {
                            line: line_at(c3),
                            text: "two-way binding on '"@ + key + "'"@,
                        },
                    ),
                )
            } else {
                Err(stuck())
            }
        } else {
            match value_at(b, c3) {
                Err(f) => Err(f),
                Ok((v, c4)) => match expected(b, trivia_end(b, c4), 59) {
                    Err(f) => Err(f),
                    Ok(c5) => if ahead(b, c, c5) {
                        body_at(b, c5, SlintNode { props: e.props.push((key, v)), ..e }, un)
                    } else {
                        Err(stuck())
                    },
                },
            }
        }
    } else if at(b, c2) == Some(123u8) {
        if ahead(b, c, c2) {
            match element_at(b, c2, key, un) {
                Err(f) => Err(f),
                Ok((child, un1, c4)) => if ahead(b, c, c4) {
                    body_at(b, c4, SlintNode { children: e.children.push(child), ..e }, un1)
                } else {
                    Err(stuck())
                },
            }
        } else {
            Err(stuck())
        }
    } else if at(b, c2) == Some(61u8) {
        let c4 = if at(b, c3) == Some(62u8) {
            next(b, c3)
        } else {
            c3
        };
        let c5 = trivia_end(b, c4);
        let c6 = if at(b, c5) == Some(123u8) {
            closing(b, next(b, c5), 123, 125, 1)
        } else {
            behind(b, c5, 59)
        };
        if ahead(b, c, c6) {
            body_at(
                b,
                c6,
                e,
                un.push(
                    Omission { line: line_at(c2), text: "callback handler '"@ + key + "'"@ },
                ),
            )
        } else {
            Err(stuck())
        }
    } else {
        Err(fault("expected ':' or '{' after '"@ + key + "'"@, c2))
    }
}

/// The rest of a source after what `f` holds.
pub open spec fn source_at(b: Seq<u8>, c: Cur, f: SlintSource) -> Result<SlintSource, SlintFault>
    decreases b.len() - c.pos,
{
    let c0 = trivia_end(b, c);
    let c1 = run_end(b, c0, Class::DashedWord);
    let word = between(b, c0, c1);
    let c2 = trivia_end(b, c1);
    if at(b, c0) is None || word.len() == 0 {
        Ok(f)
    } else if word == "component"@ {
        let c3 = run_end(b, c2, Class::DashedWord);
        let name = between(b, c2, c3);
        let c4 = trivia_end(b, c3);
        let c5 = trivia_end(b, run_end(b, c4, Class::DashedWord));
        let c6 = run_end(b, c5, Class::DashedWord);
        let base = between(b, c5, c6);
        let plain = at(b, c4) == Some(123u8);
        let un = if plain || base.len() == 0 {
            f.unsupported
        } else {
            f.unsupported.push(Omission { line: line_at(c4), text: "inherits "@ + base })
        };
        let from = if plain {
            c4
        } else {
            trivia_end(b, c6)
        };
        if name.len() == 0 {
            Err(fault("expected component name"@, c3))
        } else {
            match element_at(b, from, "__component__"@, un) {
                Err(e) => Err(e),
                Ok((body, un1, c7)) => if ahead(b, c, c7) {
                    source_at(
                        b,
                        c7,
                        SlintSource {
                            components: f.components.insert(name, body),
                            unsupported: un1,
                            ..f
                        },
                    )
                } else {
                    Err(stuck())
                },
            }
        }
    } else {
        match element_at(b, c2, word, f.unsupported) {
            Err(e) => Err(e),
            Ok((e, un1, c3)) => if ahead(b, c, c3) {
                source_at(
                    b,
                    c3,
                    SlintSource { elements: f.elements.push(e), unsupported: un1, ..f },
                )
            } else {
                Err(stuck())
            },
        }
    }
}

/// A source with nothing in it.
pub open spec fn empty_source() -> SlintSource {
    SlintSource { components: Map::empty(), elements: Seq::empty(), unsupported: Seq::empty() }
}

/// What a source holds, or why it cannot be read.
pub open spec fn source_of(b: Seq<u8>) -> Result<SlintSource, SlintFault> {
    source_at(b, start(), empty_source())
}

fn err(message: &str, line: usize) -> (r: SlintImportError)
    ensures
        r@.message == message@,
        r@.line == line,
{
    SlintImportError { message: copy(message), line }
}

fn mismatch(x: u8, got: Option<u8>, line: usize) -> (r: SlintImportError)
    ensures
        r@.line == line,
        r@.message == (match got {
            Some(y) => "expected '"@.push(x as char) + "', got '"@.push(y as char) + "'"@,
            None => "expected '"@.push(x as char) + "', got EOF"@,
        }),
{
    let mut message = copy("expected '");
    message.push(x as char);
    match got {
        Some(y) => {
            let mut tail = copy("', got '");
            tail.push(y as char);
            message.append(tail.as_str());
            message.append("'");
        },
        None => {
            message.append("', got EOF");
        },
    }
    SlintImportError { message, line }
}

fn expect_byte(lex: &mut Scanner<'_>, x: u8) -> (r: Result<(), SlintImportError>)
    ensures
        final(lex).bytes() == old(lex).bytes(),
        match expected(old(lex).bytes(), old(lex).cur(), x) {
            Ok(c) => r is Ok && final(lex).cur() == c,
            Err(e) => r is Err && r->Err_0@ == e,
        },
        old(lex).cur().pos <= final(lex).cur().pos,
        r is Ok ==> old(lex).cur().pos < final(lex).cur().pos,
{
    lex.skip_trivia();
    let got = lex.peek();
    match got {
        Some(y) => {
            if y == x {
                lex.advance();
                Ok(())
            } else {
                Err(mismatch(x, got, lex.line()))
            }
        },
        None => Err(mismatch(x, got, lex.line())),
    }
}

proof fn lemma_hex_run(b: Seq<u8>, c: Cur)
    requires
        0 <= c.pos <= b.len(),
    ensures
        forall|i: int|
            0 <= i < between(b, c, run_end(b, c, Class::Hex)).len() ==> crate::scan::is_hex(
                #[trigger] between(b, c, run_end(b, c, Class::Hex))[i],
            ),
    decreases b.len() - c.pos,
{
    crate::scan::lemma_run_end(b, c, Class::Hex);
    let e = run_end(b, c, Class::Hex);
    let text = between(b, c, e);
    if c.pos < b.len() && crate::scan::in_class(Class::Hex, b[c.pos]) {
        let n = next(b, c);
        lemma_hex_run(b, n);
        crate::scan::lemma_run_end(b, n, Class::Hex);
        let rest = between(b, n, e);
        assert forall|i: int| 0 <= i < text.len() implies crate::scan::is_hex(#[trigger] text[i]) by {
            if i > 0 {
                assert(rest[i - 1] == text[i]);
            }
        }
    }
}

spec fn sixteens(n: nat) -> int
    decreases n,
{
    if n == 0 {
        1
    } else {
        16 * sixteens((n - 1) as nat)
    }
}

proof fn lemma_hex_bound(s: Seq<char>)
    requires
        forall|i: int| 0 <= i < s.len() ==> crate::scan::is_hex(#[trigger] s[i]),
    ensures
        0 <= hex_value(s) < sixteens(s.len()),
    decreases s.len(),
{
    if s.len() > 0 {
        let d = s.drop_last();
        assert forall|i: int| 0 <= i < d.len() implies crate::scan::is_hex(#[trigger] d[i]) by {
            assert(d[i] == s[i]);
        }
        lemma_hex_bound(d);
        assert(s.last() == s[s.len() - 1]);
    }
}

proof fn lemma_hex_small(s: Seq<char>)
    requires
        forall|i: int| 0 <= i < s.len() ==> crate::scan::is_hex(#[trigger] s[i]),
    ensures
        s.len() == 6 ==> 0 <= hex_value(s) <= 0xFF_FFFF,
        s.len() == 8 ==> 0 <= hex_value(s) <= 0xFFFF_FFFF,
{
    lemma_hex_bound(s);
    reveal_with_fuel(sixteens, 9);
    assert(sixteens(6) == 0x100_0000);
    assert(sixteens(8) == 0x1_0000_0000);
}

/// Takes a colour after its `#`.
fn read_color_hex(lex: &mut Scanner<'_>) -> (r: Result<u32, SlintImportError>)
    ensures
        final(lex).bytes() == old(lex).bytes(),
        match color_at(old(lex).bytes(), old(lex).cur()) {
            Ok((v, c)) => r == Ok::<u32, SlintImportError>(v) && final(lex).cur() == c,
            Err(e) => r is Err && r->Err_0@ == e,
        },
        old(lex).cur().pos <= final(lex).cur().pos,
{
    let ghost b = lex.bytes();
    let ghost c = lex.cur();
    lex.bounds();
    let hex = lex.read_run(Class::Hex);
    proof {
        lemma_hex_run(b, c);
        lemma_hex_small(hex@);
    }
    let n: usize = chars_of(hex.as_str()).len();
    if n == 6 {
        match parse_hex(hex.as_str()) {
            Some(v) => Ok(v * 256 + 255),
            None => Err(err("bad hex color", lex.line())),
        }
    } else if n == 8 {
        match parse_hex(hex.as_str()) {
            Some(v) => Ok(v),
            None => Err(err("bad hex color", lex.line())),
        }
    } else {
        let digits = decimal_text(n as u64);
        let message = join("hex color must be 6 or 8 digits, got ", digits.as_str());
        Err(SlintImportError { message, line: lex.line() })
    }
}

/// Takes one value.
fn read_value(lex: &mut Scanner<'_>) -> (r: Result<SlintValue, SlintImportError>)
    ensures
        final(lex).bytes() == old(lex).bytes(),
        match value_at(old(lex).bytes(), old(lex).cur()) {
            Ok((v, c)) => r is Ok && literal_of(r->Ok_0) == v && final(lex).cur() == c,
            Err(e) => r is Err && r->Err_0@ == e,
        },
        old(lex).cur().pos <= final(lex).cur().pos,
{
    lex.skip_trivia();
    match lex.peek() {
        None => Err(err("unexpected end of input while reading value", lex.line())),
        Some(x) => {
            if x == 34 {
                lex.advance();
                match lex.read_literal(34, true) {
                    Ok(text) => Ok(SlintValue::Str(text)),
                    Err(Cut::InText) => Err(err("unterminated string literal", lex.line())),
                    Err(Cut::InEscape) => Err(err("unterminated escape", lex.line())),
                }
            } else if x == 35 {
                lex.advance();
                match read_color_hex(lex) {
                    Ok(v) => Ok(SlintValue::Color(v)),
                    Err(e) => Err(e),
                }
            } else if is_class(Class::Digit, x) {
                let text = lex.read_run(Class::Decimal);
                lex.skip_trivia();
                let p = lex.peek() == Some(112u8);
                let x2 = lex.peek_second() == Some(120u8);
                lex.bounds();
                if p && x2 {
                    lex.advance();
                    lex.advance();
                    Ok(SlintValue::Px(text))
                } else {
                    Ok(SlintValue::Float(text))
                }
            } else {
                let word = lex.read_run(Class::DashedWord);
                if same(word.as_str(), "true") {
                    Ok(SlintValue::Bool(true))
                } else if same(word.as_str(), "false") {
                    Ok(SlintValue::Bool(false))
                } else {
                    Ok(SlintValue::Ident(word))
                }
            }
        },
    }
}

/// Takes an element body with its braces.
#[verifier::rlimit(40)]
fn parse_element_with_kind(
    lex: &mut Scanner<'_>,
    kind: String,
    unsupported: &mut Vec<Unsupported>,
) -> (r: Result<SlintElement, SlintImportError>)
    ensures
        final(lex).bytes() == old(lex).bytes(),
        match element_at(old(lex).bytes(), old(lex).cur(), kind@, omissions(old(unsupported)@)) {
            Ok((e, un, c)) => {
                &&& r is Ok
                &&& node_of(r->Ok_0) == e
                &&& omissions(final(unsupported)@) == un
                &&& final(lex).cur() == c
            },
            Err(e) => r is Err && r->Err_0@ == e,
        },
        r is Ok ==> old(lex).cur().pos < final(lex).cur().pos,
    decreases old(lex).bytes().len() - old(lex).cur().pos,
{
    let ghost b = lex.bytes();
    let ghost from = lex.cur();
    let ghost goal = element_at(b, from, kind@, omissions(unsupported@));
    lex.bounds();
    match expect_byte(lex, 123) {
        Ok(_) => {},
        Err(e) => {
            return Err(e);
        },
    }
    lex.bounds();
    let mut props: Vec<(String, SlintValue)> = Vec::new();
    let mut children: Vec<SlintElement> = Vec::new();
    assert(props_of(props@) =~= Seq::<(Seq<char>, SlintLiteral)>::empty());
    assert(nodes_of(children@) =~= Seq::<SlintNode>::empty());
    loop
        invariant
            lex.bytes() == b,
            b == old(lex).bytes(),
            from == old(lex).cur(),
            0 <= from.pos < lex.cur().pos <= b.len(),
            body_at(
                b,
                lex.cur(),
                SlintNode { kind: kind@, props: props_of(props@), children: nodes_of(children@) },
                omissions(unsupported@),
            ) == goal,
            goal == element_at(b, from, kind@, omissions(old(unsupported)@)),
        decreases b.len() - lex.cur().pos,
    {
        lex.skip_trivia();
        let first = lex.peek();
        if first == Some(125u8) {
            lex.advance();
            let e = SlintElement { kind, props, children };
            proof {
                lemma_node_of(e);
            }
            return Ok(e);
        }
        if first.is_none() {
            return Err(err("unexpected EOF inside element body", lex.line()));
        }
        let key = lex.read_run(Class::DashedWord);
        if key.as_str().is_empty() {
            return Err(err("expected property name or child element", lex.line()));
        }
        lex.skip_trivia();
        let mark = lex.peek();
        if mark == Some(58u8) {
            lex.advance();
            lex.skip_trivia();
            if lex.peek() == Some(60u8) {
                let line: usize = lex.line();
                lex.skip_behind(59);
                lex.bounds();
                let mut text = join("two-way binding on '", key.as_str());
                text.append("'");
                note(unsupported, line, text);
            } else {
                let value = match read_value(lex) {
                    Ok(v) => v,
                    Err(e) => {
                        return Err(e);
                    },
                };
                lex.skip_trivia();
                match expect_byte(lex, 59) {
                    Ok(_) => {},
                    Err(e) => {
                        return Err(e);
                    },
                }
                lex.bounds();
                let ghost before = props_of(props@);
                let ghost model = (key@, literal_of(value));
                props.push((key, value));
                assert(props_of(props@) =~= before.push(model));
            }
        } else if mark == Some(123u8) {
            lex.bounds();
            let child = match parse_element_with_kind(lex, key, unsupported) {
                Ok(child) => child,
                Err(e) => {
                    return Err(e);
                },
            };
            lex.bounds();
            let ghost before = nodes_of(children@);
            let ghost model = node_of(child);
            children.push(child);
            assert(nodes_of(children@) =~= before.push(model));
        } else if mark == Some(61u8) {
            let line: usize = lex.line();
            lex.advance();
            lex.skip_trivia();
            if lex.peek() == Some(62u8) {
                lex.advance();
            }
            lex.skip_trivia();
            if lex.peek() == Some(123u8) {
                lex.advance();
                lex.skip_closing(123, 125);
            } else {
                lex.skip_behind(59);
            }
            lex.bounds();
            let mut text = join("callback handler '", key.as_str());
            text.append("'");
            note(unsupported, line, text);
        } else {
            let mut message = join("expected ':' or '{' after '", key.as_str());
            message.append("'");
            return Err(SlintImportError { message, line: lex.line() });
        }
    }
}

/// A parsed source.
#[derive(Debug)]
struct SlintFile {
    components: TextMap<SlintElement>,
    elements: Vec<SlintElement>,
    unsupported: Vec<Unsupported>,
}

spec fn file_model(f: SlintFile) -> SlintSource {
    SlintSource {
        components: components_of(f.components@),
        elements: nodes_of(f.elements@),
        unsupported: omissions(f.unsupported@),
    }
}

/// Takes a whole source.
fn parse_file(lex: &mut Scanner<'_>) -> (r: Result<SlintFile, SlintImportError>)
    requires
        old(lex).cur() == start(),
    ensures
        match source_of(old(lex).bytes()) {
            Ok(f) => r is Ok && file_model(r->Ok_0) == f,
            Err(e) => r is Err && r->Err_0@ == e,
        },
{
    let ghost b = lex.bytes();
    let ghost goal = source_of(b);
    let mut components: TextMap<SlintElement> = TextMap::new();
    let mut elements: Vec<SlintElement> = Vec::new();
    let mut unsupported: Vec<Unsupported> = Vec::new();
    proof {
        assert(components_of(components@) =~= Map::<Seq<char>, SlintNode>::empty());
        assert(nodes_of(elements@) =~= Seq::<SlintNode>::empty());
        assert(omissions(unsupported@) =~= Seq::<Omission>::empty());
    }
    lex.bounds();
    loop
        invariant
            lex.bytes() == b,
            b == old(lex).bytes(),
            goal == source_of(b),
            0 <= lex.cur().pos <= b.len(),
            source_at(
                b,
                lex.cur(),
                SlintSource {
                    components: components_of(components@),
                    elements: nodes_of(elements@),
                    unsupported: omissions(unsupported@),
                },
            ) == goal,
        decreases b.len() - lex.cur().pos,
    {
        let ghost c = lex.cur();
        lex.skip_trivia();
        if lex.peek().is_none() {
            return Ok(SlintFile { components, elements, unsupported });
        }
        let word = lex.read_run(Class::DashedWord);
        if word.as_str().is_empty() {
            return Ok(SlintFile { components, elements, unsupported });
        }
        if same(word.as_str(), "component") {
            lex.skip_trivia();
            let name = lex.read_run(Class::DashedWord);
            if name.as_str().is_empty() {
                return Err(err("expected component name", lex.line()));
            }
            lex.skip_trivia();
            if lex.peek() != Some(123u8) {
                let line: usize = lex.line();
                let _clause = lex.read_run(Class::DashedWord);
                lex.skip_trivia();
                let base = lex.read_run(Class::DashedWord);
                lex.skip_trivia();
                if !base.as_str().is_empty() {
                    note(&mut unsupported, line, join("inherits ", base.as_str()));
                }
            }
            lex.bounds();
            let body = match parse_element_with_kind(lex, copy("__component__"), &mut unsupported) {
                Ok(body) => body,
                Err(e) => {
                    return Err(e);
                },
            };
            lex.bounds();
            let ghost before = components@;
            let ghost key = name@;
            components.insert(name, body);
            assert(components_of(components@) =~= components_of(before).insert(key, node_of(body)));
        } else {
            lex.skip_trivia();
            lex.bounds();
            let elem = match parse_element_with_kind(lex, word, &mut unsupported) {
                Ok(elem) => elem,
                Err(e) => {
                    return Err(e);
                },
            };
            lex.bounds();
            let ghost before = nodes_of(elements@);
            let ghost model = node_of(elem);
            elements.push(elem);
            assert(nodes_of(elements@) =~= before.push(model));
        }
    }
}

/// Every `-` as `_`.
pub open spec fn underscored(s: Seq<char>) -> Seq<char> {
    s.map_values(|c: char| if c == '-' { '_' } else { c })
}

/// The property that a Slint property becomes.
pub open spec fn node_prop(name: Seq<char>) -> Seq<char> {
    if name == "text"@ {
        "content"@
    } else if name == "font-size"@ {
        "size"@
    } else if name == "border-radius"@ {
        "corner_radius"@
    } else {
        underscored(name)
    }
}

/// The colour that a name stands for.
pub open spec fn color_named(name: Seq<char>) -> Option<u32> {
    if name == "white"@ {
        Some(0xFFFF_FFFF)
    } else if name == "black"@ {
        Some(0x0000_00FF)
    } else if name == "red"@ {
        Some(0xFF00_00FF)
    } else if name == "green"@ {
        Some(0x00FF_00FF)
    } else if name == "blue"@ {
        Some(0x0000_FFFF)
    } else if name == "transparent"@ {
        Some(0x0000_0000)
    } else {
        None
    }
}

/// The property value that a parsed value becomes.
pub open spec fn prop_value(v: SlintLiteral, fl: Unit) -> ValueModel {
    match v {
        SlintLiteral::Px(s) => ValueModel::Px(
            low_half(bits(fl(FloatQuery::Narrow { double: bits(fl(FloatQuery::Read { text: s })) }))),
        ),
        SlintLiteral::Color(c) => ValueModel::Color(c),
        SlintLiteral::Str(s) => ValueModel::Text(s),
        SlintLiteral::Bool(x) => ValueModel::Bool(x),
        SlintLiteral::Float(s) => ValueModel::Float(bits(fl(FloatQuery::Read { text: s }))),
        SlintLiteral::Ident(s) => match color_named(s) {
            Some(c) => ValueModel::Color(c),
            None => ValueModel::Text(s),
        },
    }
}

/// The document after the properties from the `i`-th on were set on a node.
pub open spec fn with_props(
    id: NodeId,
    props: Seq<(Seq<char>, SlintLiteral)>,
    i: int,
    d: DocModel,
    fl: Unit,
) -> DocModel
    decreases props.len() - i,
{
    if i < 0 || i >= props.len() {
        d
    } else {
        with_props(
            id,
            props,
            i + 1,
            sys(
                d,
                MutationModel::SetProp {
                    id,
                    key: node_prop(props[i].0),
                    value: prop_value(props[i].1, fl),
                },
            ),
            fl,
        )
    }
}

/// The document after an element was added, with components expanded at most `n` levels deep.
/// A use of a component becomes a `Stack` with the component's properties and children first.
pub open spec fn lowered(
    e: SlintNode,
    comps: Map<Seq<char>, SlintNode>,
    n: nat,
    d: DocModel,
    fl: Unit,
) -> DocModel
    decreases n, 0nat,
{
    if n == 0 {
        d
    } else {
        let id = NodeId(d.next_id);
        let used = comps.dom().contains(e.kind);
        let comp = comps[e.kind];
        let d1 = created(
            d,
            if used {
                "Stack"@
            } else {
                e.kind
            },
        );
        let d2 = if used {
            with_props(id, comp.props, 0, d1, fl)
        } else {
            d1
        };
        let d3 = with_props(id, e.props, 0, d2, fl);
        let d4 = if used {
            lowered_children(comp.children, 0, id, comps, (n - 1) as nat, d3, fl)
        } else {
            d3
        };
        lowered_children(e.children, 0, id, comps, (n - 1) as nat, d4, fl)
    }
}

/// The document after the elements from the `i`-th on became children of a node.
pub open spec fn lowered_children(
    s: Seq<SlintNode>,
    i: int,
    id: NodeId,
    comps: Map<Seq<char>, SlintNode>,
    n: nat,
    d: DocModel,
    fl: Unit,
) -> DocModel
    decreases n, (if i < s.len() { s.len() - i + 1 } else { 1 }) as nat,
{
    if i < 0 || i >= s.len() {
        d
    } else {
        let d1 = sys(
            lowered(s[i], comps, n, d, fl),
            MutationModel::AppendChild { parent: id, child: NodeId(d.next_id) },
        );
        lowered_children(s, i + 1, id, comps, n, d1, fl)
    }
}

/// Expanding the components in an element ends within `n` levels.
pub open spec fn settles(e: SlintNode, comps: Map<Seq<char>, SlintNode>, n: nat) -> bool
    decreases n,
{
    &&& n > 0
    &&& forall|i: int| 0 <= i < e.children.len() ==> settles(#[trigger] e.children[i], comps, (n - 1) as nat)
    &&& comps.dom().contains(e.kind) ==> forall|i: int|
        0 <= i < comps[e.kind].children.len() ==> settles(
            #[trigger] comps[e.kind].children[i],
            comps,
            (n - 1) as nat,
        )
}

/// How many nodes an element becomes, with components expanded at most `n` levels deep.
pub open spec fn node_count(e: SlintNode, comps: Map<Seq<char>, SlintNode>, n: nat) -> nat
    decreases n, 0nat,
{
    if n == 0 {
        0
    } else {
        1 + (if comps.dom().contains(e.kind) {
            node_counts(comps[e.kind].children, 0, comps, (n - 1) as nat)
        } else {
            0
        }) + node_counts(e.children, 0, comps, (n - 1) as nat)
    }
}

/// How many nodes the elements from the `i`-th on become.
pub open spec fn node_counts(s: Seq<SlintNode>, i: int, comps: Map<Seq<char>, SlintNode>, n: nat) -> nat
    decreases n, (if i < s.len() { s.len() - i + 1 } else { 1 }) as nat,
{
    if i < 0 || i >= s.len() {
        0
    } else {
        node_count(s[i], comps, n) + node_counts(s, i + 1, comps, n)
    }
}

/// Expanding the components of a source ends within `n` levels, in no more nodes than there are ids.
pub open spec fn fits(f: SlintSource, n: nat) -> bool {
    &&& forall|i: int| 0 <= i < f.elements.len() ==> settles(#[trigger] f.elements[i], f.components, n)
    &&& node_counts(f.elements, 0, f.components, n) <= u64::MAX
}

/// No component of the source uses itself, directly or through others.
pub open spec fn expandable(f: SlintSource) -> bool {
    exists|n: nat| #[trigger] fits(f, n)
}

/// The document after the elements from the `i`-th on were added; the first of all is the root.
pub open spec fn assembled(f: SlintSource, i: int, n: nat, d: DocModel, fl: Unit) -> DocModel
    decreases f.elements.len() - i,
{
    if i < 0 || i >= f.elements.len() {
        d
    } else {
        let d1 = lowered(f.elements[i], f.components, n, d, fl);
        let d2 = if i == 0 {
            sys(d1, MutationModel::SetRoot { id: NodeId(d.next_id) })
        } else {
            d1
        };
        assembled(f, i + 1, n, d2, fl)
    }
}

/// The document that a parsed source stands for.
pub open spec fn document_of(f: SlintSource, fl: Unit) -> DocModel {
    assembled(f, 0, choose|n: nat| fits(f, n), empty_doc(), fl)
}

fn map_prop_name(name: &str) -> (r: String)
    ensures
        r@ == node_prop(name@),
{
    if same(name, "text") {
        return copy("content");
    }
    if same(name, "font-size") {
        return copy("size");
    }
    if same(name, "border-radius") {
        return copy("corner_radius");
    }
    let cs = chars_of(name);
    let mut out = String::new();
    let mut i: usize = 0;
    while i < cs.len()
        invariant
            cs@ == name@,
            i <= cs@.len(),
            out@ == underscored(cs@.take(i as int)),
        decreases cs.len() - i,
    {
        let c: char = cs[i];
        out.push(
            if c == '-' {
                '_'
            } else {
                c
            },
        );
        i += 1;
        assert(out@ =~= underscored(cs@.take(i as int)));
    }
    assert(cs@.take(i as int) =~= cs@);
    out
}

fn named_color(name: &str) -> (r: Option<u32>)
    ensures
        r == color_named(name@),
{
    if same(name, "white") {
        Some(0xFFFF_FFFF)
    } else if same(name, "black") {
        Some(0x0000_00FF)
    } else if same(name, "red") {
        Some(0xFF00_00FF)
    } else if same(name, "green") {
        Some(0x00FF_00FF)
    } else if same(name, "blue") {
        Some(0x0000_FFFF)
    } else if same(name, "transparent") {
        Some(0x0000_0000)
    } else {
        None
    }
}

fn slint_value_to_ir<F: Fn(&FloatOp) -> Option<u64>>(v: &SlintValue, fl: &F) -> (r: Value)
    requires
        steady(*fl),
    ensures
        r@ == prop_value(literal_of(*v), unit(*fl)),
{
    match v {
        SlintValue::Px(s) => Value::Px(narrow(fl, read_or_zero(fl, s.as_str()))),
        SlintValue::Color(c) => Value::Color(*c),
        SlintValue::Str(s) => Value::Text(s.clone()),
        SlintValue::Bool(x) => Value::Bool(*x),
        SlintValue::Float(s) => Value::Float(read_or_zero(fl, s.as_str())),
        SlintValue::Ident(s) => match named_color(s.as_str()) {
            Some(c) => Value::Color(c),
            None => Value::Text(s.clone()),
        },
    }
}

fn set_props<F: Fn(&FloatOp) -> Option<u64>>(
    id: NodeId,
    props: &Vec<(String, SlintValue)>,
    doc: &mut Document,
    fl: &F,
)
    requires
        steady(*fl),
        sprouting(old(doc)@),
    ensures
        final(doc)@ == with_props(id, props_of(props@), 0, old(doc)@, unit(*fl)),
        sprouting(final(doc)@),
        rooted_in(old(doc)@, final(doc)@),
        final(doc)@.next_id == old(doc)@.next_id,
{
    let ghost m = props_of(props@);
    let ghost goal = with_props(id, m, 0, doc@, unit(*fl));
    let mut i: usize = 0;
    while i < props.len()
        invariant
            steady(*fl),
            m == props_of(props@),
            i <= props@.len(),
            with_props(id, m, i as int, doc@, unit(*fl)) == goal,
            sprouting(doc@),
            rooted_in(old(doc)@, doc@),
            doc@.next_id == old(doc)@.next_id,
        decreases props.len() - i,
    {
        let e = &props[i];
        assert(m[i as int] == (e.0@, literal_of(e.1)));
        let key = map_prop_name(e.0.as_str());
        let value = slint_value_to_ir(&e.1, fl);
        apply_system(doc, Mutation::SetProp { id, key, value });
        i += 1;
    }
}

/// Adds an element to the document.
fn lower_element<F: Fn(&FloatOp) -> Option<u64>>(
    elem: &SlintElement,
    doc: &mut Document,
    components: &TextMap<SlintElement>,
    fl: &F,
    Ghost(n): Ghost<nat>,
) -> (r: NodeId)
    requires
        steady(*fl),
        sprouting(old(doc)@),
        settles(node_of(*elem), components_of(components@), n),
        old(doc)@.next_id + node_count(node_of(*elem), components_of(components@), n) <= u64::MAX,
    ensures
        r == NodeId(old(doc)@.next_id),
        final(doc)@ == lowered(
            node_of(*elem),
            components_of(components@),
            n,
            old(doc)@,
            unit(*fl),
        ),
        sprouting(final(doc)@),
        rooted_in(old(doc)@, final(doc)@),
        final(doc)@.tree.nodes.dom().contains(r),
        final(doc)@.tree.nodes[r].parent is None,
        final(doc)@.next_id <= old(doc)@.next_id + node_count(
            node_of(*elem),
            components_of(components@),
            n,
        ),
    decreases n, 0nat,
{
    let ghost m = node_of(*elem);
    let ghost comps = components_of(components@);
    proof {
        lemma_node_of(*elem);
    }
    let found = components.get(elem.kind.as_str());
    let kind = match found {
        Some(_) => copy("Stack"),
        None => elem.kind.clone(),
    };
    let id = create(doc, kind);
    match found {
        Some(comp) => {
            set_props(id, &comp.props, doc, fl);
        },
        None => {},
    }
    set_props(id, &elem.props, doc, fl);
    match found {
        Some(comp) => {
            proof {
                lemma_node_of(*comp);
                assert(comps[m.kind] == node_of(*comp));
            }
            lower_children(&comp.children, id, doc, components, fl, Ghost((n - 1) as nat));
        },
        None => {},
    }
    lower_children(&elem.children, id, doc, components, fl, Ghost((n - 1) as nat));
    id
}

/// Adds elements as children of a node.
fn lower_children<F: Fn(&FloatOp) -> Option<u64>>(
    children: &Vec<SlintElement>,
    id: NodeId,
    doc: &mut Document,
    components: &TextMap<SlintElement>,
    fl: &F,
    Ghost(n): Ghost<nat>,
)
    requires
        steady(*fl),
        sprouting(old(doc)@),
        old(doc)@.tree.nodes.dom().contains(id),
        forall|i: int|
            0 <= i < children@.len() ==> settles(
                #[trigger] nodes_of(children@)[i],
                components_of(components@),
                n,
            ),
        old(doc)@.next_id + node_counts(nodes_of(children@), 0, components_of(components@), n) <= u64::MAX,
    ensures
        final(doc)@ == lowered_children(
            nodes_of(children@),
            0,
            id,
            components_of(components@),
            n,
            old(doc)@,
            unit(*fl),
        ),
        sprouting(final(doc)@),
        rooted_in(old(doc)@, final(doc)@),
        final(doc)@.next_id <= old(doc)@.next_id + node_counts(
            nodes_of(children@),
            0,
            components_of(components@),
            n,
        ),
    decreases n, 1nat,
{
    let ghost m = nodes_of(children@);
    let ghost comps = components_of(components@);
    let ghost goal = lowered_children(m, 0, id, comps, n, doc@, unit(*fl));
    let ghost limit = doc@.next_id + node_counts(m, 0, comps, n);
    let mut i: usize = 0;
    while i < children.len()
        invariant
            steady(*fl),
            m == nodes_of(children@),
            comps == components_of(components@),
            i <= children@.len(),
            forall|k: int| 0 <= k < children@.len() ==> settles(#[trigger] m[k], comps, n),
            lowered_children(m, i as int, id, comps, n, doc@, unit(*fl)) == goal,
            limit <= u64::MAX,
            doc@.next_id + node_counts(m, i as int, comps, n) <= limit,
            sprouting(old(doc)@),
            old(doc)@.tree.nodes.dom().contains(id),
            sprouting(doc@),
            rooted_in(old(doc)@, doc@),
        decreases children.len() - i,
    {
        assert(m[i as int] == node_of(children@[i as int]));
        let child = lower_element(&children[i], doc, components, fl, Ghost(n));
        proof {
            lemma_hung_sprouts(old(doc)@, doc@, id, child);
        }
        apply_system(doc, Mutation::AppendChild { parent: id, child });
        i += 1;
    }
}

/// How many nodes an element becomes where that takes at most `depth` levels and no more nodes than
/// there are ids; `None` where it takes more, or does not come to an end.
fn size_within(elem: &SlintElement, components: &TextMap<SlintElement>, depth: u64) -> (r: Option<u64>)
    ensures
        match r {
            Some(c) => settles(node_of(*elem), components_of(components@), depth as nat) && c == node_count(
                node_of(*elem),
                components_of(components@),
                depth as nat,
            ),
            None => !settles(node_of(*elem), components_of(components@), depth as nat) || node_count(
                node_of(*elem),
                components_of(components@),
                depth as nat,
            ) > u64::MAX,
        },
    decreases depth, 0nat,
{
    let ghost m = node_of(*elem);
    let ghost comps = components_of(components@);
    if depth == 0 {
        return None;
    }
    proof {
        lemma_node_of(*elem);
    }
    let mut total: u64 = 1;
    match components.get(elem.kind.as_str()) {
        Some(comp) => {
            proof {
                lemma_node_of(*comp);
                assert(comps[m.kind] == node_of(*comp));
            }
            let k = match sizes_within(&comp.children, components, depth - 1) {
                Some(k) => k,
                None => {
                    return None;
                },
            };
            if k > u64::MAX - total {
                return None;
            }
            total = total + k;
        },
        None => {},
    }
    let k = match sizes_within(&elem.children, components, depth - 1) {
        Some(k) => k,
        None => {
            return None;
        },
    };
    if k > u64::MAX - total {
        return None;
    }
    Some(total + k)
}

/// The elements all end within `n` levels.
spec fn all_settle(s: Seq<SlintNode>, comps: Map<Seq<char>, SlintNode>, n: nat) -> bool {
    forall|i: int| 0 <= i < s.len() ==> settles(#[trigger] s[i], comps, n)
}

/// How many nodes elements become, under the same limits.
fn sizes_within(children: &Vec<SlintElement>, components: &TextMap<SlintElement>, depth: u64) -> (r:
    Option<u64>)
    ensures
        match r {
            Some(c) => all_settle(nodes_of(children@), components_of(components@), depth as nat) && c
                == node_counts(nodes_of(children@), 0, components_of(components@), depth as nat),
            None => !all_settle(nodes_of(children@), components_of(components@), depth as nat)
                || node_counts(nodes_of(children@), 0, components_of(components@), depth as nat) > u64::MAX,
        },
    decreases depth, 1nat,
{
    let ghost m = nodes_of(children@);
    let ghost comps = components_of(components@);
    let ghost all = node_counts(m, 0, comps, depth as nat);
    let mut total: u64 = 0;
    let mut i: usize = 0;
    while i < children.len()
        invariant
            m == nodes_of(children@),
            comps == components_of(components@),
            i <= children@.len(),
            all == node_counts(m, 0, comps, depth as nat),
            total + node_counts(m, i as int, comps, depth as nat) == all,
            forall|k: int| 0 <= k < i ==> settles(#[trigger] m[k], comps, depth as nat),
        decreases children.len() - i,
    {
        assert(m[i as int] == node_of(children@[i as int]));
        let k = match size_within(&children[i], components, depth) {
            Some(k) => k,
            None => {
                return None;
            },
        };
        if k > u64::MAX - total {
            return None;
        }
        total = total + k;
        i += 1;
    }
    Some(total)
}

/// Reads a source into a document as [`parse_with_report`] does, where the components expand within
/// `depth` levels, in no more nodes than there are ids; `None` where they do not, as where a
/// component uses itself.
pub fn parse_within<F: Fn(&FloatOp) -> Option<u64>>(src: &str, depth: u64, fl: &F) -> (r: Option<
    Result<ImportReport, SlintImportError>,
>)
    requires
        steady(*fl),
    ensures
        match source_of(encode_utf8(src@)) {
            Ok(f) => if fits(f, depth as nat) {
                &&& r matches Some(Ok(report))
                &&& report.document@ == document_of(f, unit(*fl))
                &&& omissions(report.unsupported@) == f.unsupported
                &&& orderly(report.document@)
            } else {
                r is None
            },
            Err(e) => r matches Some(Err(x)) && x@ == e,
        },
{
    let mut lex = Scanner::new(src);
    match parse_file(&mut lex) {
        Ok(file) => {
            proof {
                assert(fits(file_model(file), depth as nat) <==> all_settle(
                    nodes_of(file.elements@),
                    components_of(file.components@),
                    depth as nat,
                ) && node_counts(
                    nodes_of(file.elements@),
                    0,
                    components_of(file.components@),
                    depth as nat,
                ) <= u64::MAX);
            }
            match sizes_within(&file.elements, &file.components, depth) {
                Some(_) => Some(parse_with_report(src, fl)),
                None => None,
            }
        },
        Err(e) => Some(Err(e)),
    }
}

/// Reads a source into a document, and notes the constructs that were left out. The first element
/// becomes the root; components are expanded where they are used. A source in which a component
/// uses itself describes no finite document and must not be given.
pub fn parse_with_report<F: Fn(&FloatOp) -> Option<u64>>(src: &str, fl: &F) -> (r: Result<
    ImportReport,
    SlintImportError,
>)
    requires
        steady(*fl),
        source_of(encode_utf8(src@)) matches Ok(f) ==> expandable(f),
    ensures
        match source_of(encode_utf8(src@)) {
            Ok(f) => {
                &&& r is Ok
                &&& r->Ok_0.document@ == document_of(f, unit(*fl))
                &&& omissions(r->Ok_0.unsupported@) == f.unsupported
            },
            Err(e) => r is Err && r->Err_0@ == e,
        },
        r matches Ok(report) ==> orderly(report.document@),
{
    let mut lex = Scanner::new(src);
    let file = match parse_file(&mut lex) {
        Ok(file) => file,
        Err(e) => {
            return Err(e);
        },
    };
    let ghost f = file_model(file);
    let ghost n = choose|n: nat| fits(f, n);
    let mut document = Document::new();
    let ghost goal = document_of(f, unit(*fl));
    proof {
        lemma_empty_sprouting();
    }
    let mut i: usize = 0;
    while i < file.elements.len()
        invariant
            steady(*fl),
            f == file_model(file),
            fits(f, n),
            i <= file.elements@.len(),
            assembled(f, i as int, n, document@, unit(*fl)) == goal,
            document@.next_id + node_counts(f.elements, i as int, f.components, n) <= u64::MAX,
            sprouting(document@),
        decreases file.elements.len() - i,
    {
        assert(f.elements[i as int] == node_of(file.elements@[i as int]));
        let id = lower_element(&file.elements[i], &mut document, &file.components, fl, Ghost(n));
        if i == 0 {
            apply_system(&mut document, Mutation::SetRoot { id });
        }
        i += 1;
    }
    proof {
        lemma_sprouting_orderly(document@);
    }
    Ok(ImportReport { document, unsupported: file.unsupported })
}

/// Reads a source into a document. Its links agree, and it can be walked.
pub fn parse<F: Fn(&FloatOp) -> Option<u64>>(src: &str, fl: &F) -> (r: Result<
    Document,
    SlintImportError,
>)
    requires
        steady(*fl),
        source_of(encode_utf8(src@)) matches Ok(f) ==> expandable(f),
    ensures
        match source_of(encode_utf8(src@)) {
            Ok(f) => r is Ok && r->Ok_0@ == document_of(f, unit(*fl)),
            Err(e) => r is Err && r->Err_0@ == e,
        },
        r matches Ok(d) ==> orderly(d@),
{
    match parse_with_report(src, fl) {
        Ok(report) => Ok(report.document),
        Err(e) => Err(e),
    }
}

} // verus!
