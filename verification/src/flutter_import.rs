//! Flutter widget trees: `WidgetName(prop: value, child: Widget(...))` read into a document.
use vstd::prelude::*;
use vstd::utf8::encode_utf8;

use crate::float::{bits, read_or_zero, steady, to_i64, truncated, unit, FloatOp, FloatQuery, Unit};
use crate::ir::{empty_doc, DocModel, Document, Mutation, MutationModel};
use crate::lowering::{apply_system, create, created, sys};
use crate::lowering_law::{
    lemma_empty_sprouting, lemma_hung_sprouts, lemma_sprouting_orderly, orderly, rooted_in, sprouting,
};
use crate::node::NodeId;
use crate::scan::{
    at, between, digit, is_class, is_hex_u32, hex_value, lemma_run_end, line_at, literal, next, parse_hex,
    run_end, start, Class, Cur, Cut, Scanner,
};
use crate::text::{copy, decimal, decimal_text, join, same};
use crate::value::{Action, ActionModel, Value, ValueModel};

verus! {

/// A source that cannot be read, and the line where that showed.
#[derive(Debug)]
pub struct FlutterImportError {
    pub message: String,
    pub line: usize,
}

/// A [`FlutterImportError`] as mathematics.
pub struct FlutterFault {
    pub message: Seq<char>,
    pub line: int,
}

impl View for FlutterImportError {
    type V = FlutterFault;

    open spec fn view(&self) -> FlutterFault {
        FlutterFault { message: self.message@, line: self.line as int }
    }
}

impl FlutterImportError {
    /// The error as one line of text.
    pub fn to_text(&self) -> (r: String)
        ensures
            r@ == "flutter-import error at line "@ + decimal(self@.line as nat) + ": "@ + self@.message,
    {
        let mut out = copy("flutter-import error at line ");
        let n = decimal_text(self.line as u64);
        out.append(n.as_str());
        out.append(": ");
        out.append(self.message.as_str());
        out
    }
}

/// A prop that has no place in a document and was left out.
#[derive(Debug, Clone, PartialEq, Eq)]
pub struct Unsupported {
    pub line: usize,
    pub text: String,
}

/// An [`Unsupported`] as mathematics.
pub struct Omission {
    pub line: int,
    pub text: Seq<char>,
}

impl View for Unsupported {
    type V = Omission;

    open spec fn view(&self) -> Omission {
        Omission { line: self.line as int, text: self.text@ }
    }
}

/// The models of a list of omissions.
pub open spec fn omissions(s: Seq<Unsupported>) -> Seq<Omission> {
    s.map_values(|u: Unsupported| u@)
}

/// A document read from a source, with what was left out.
#[derive(Debug)]
pub struct ImportReport {
    pub document: Document,
    pub unsupported: Vec<Unsupported>,
}

/// A parsed argument value. Numbers are kept as they were written.
#[derive(Debug)]
enum FVal {
    Str(String),
    Color(u32),
    Float(String),
    Int(String),
    Bool(bool),
    Widget(FWidget),
    List(Vec<FVal>),
    Ident(String),
}

/// A parsed widget call. An argument stands with the line that it begins on.
#[derive(Debug)]
struct FWidget {
    kind: String,
    args: Vec<(String, FVal, usize)>,
    positional: Option<String>,
}

/// A parsed argument value as mathematics.
pub enum FlutterValue {
    Str(Seq<char>),
    Color(u32),
    Float(Seq<char>),
    Int(Seq<char>),
    Bool(bool),
    Widget(FlutterWidget),
    List(Seq<FlutterValue>),
    Ident(Seq<char>),
}

/// A parsed widget call as mathematics. An argument stands with the line that it begins on.
pub struct FlutterWidget {
    pub kind: Seq<char>,
    pub args: Seq<(Seq<char>, FlutterValue, int)>,
    pub positional: Option<Seq<char>>,
}

spec fn value_of(v: FVal) -> FlutterValue
    decreases v,
{
    match v {
        FVal::Str(s) => FlutterValue::Str(s@),
        FVal::Color(c) => FlutterValue::Color(c),
        FVal::Float(s) => FlutterValue::Float(s@),
        FVal::Int(s) => FlutterValue::Int(s@),
        FVal::Bool(b) => FlutterValue::Bool(b),
        FVal::Widget(w) => FlutterValue::Widget(widget_of(w)),
        FVal::List(items) => FlutterValue::List(
            Seq::new(
                items@.len(),
                |i: int|
                    if 0 <= i < items@.len() {
                        value_of(items@[i])
                    } else {
                        FlutterValue::Bool(false)
                    },
            ),
        ),
        FVal::Ident(s) => FlutterValue::Ident(s@),
    }
}

spec fn widget_of(w: FWidget) -> FlutterWidget
    decreases w,
{
    FlutterWidget {
        kind: w.kind@,
        args: Seq::new(
            w.args@.len(),
            |i: int|
                if 0 <= i < w.args@.len() {
                    (w.args@[i].0@, value_of(w.args@[i].1), w.args@[i].2 as int)
                } else {
                    (Seq::empty(), FlutterValue::Bool(false), 0)
                },
        ),
        positional: match w.positional {
            Some(s) => Some(s@),
            None => None,
        },
    }
}

/// A message and the line of a place.
pub open spec fn fault(message: Seq<char>, c: Cur) -> FlutterFault {
    FlutterFault { message, line: line_at(c) }
}

/// The place after blanks.
pub open spec fn blank(b: Seq<u8>, c: Cur) -> Cur {
    run_end(b, c, Class::Space)
}

/// `to` lies behind `from`, inside the source.
pub open spec fn ahead(b: Seq<u8>, from: Cur, to: Cur) -> bool {
    0 <= from.pos < to.pos <= b.len()
}

/// `to` does not lie before `from`, and lies inside the source.
pub open spec fn onward(b: Seq<u8>, from: Cur, to: Cur) -> bool {
    0 <= from.pos <= to.pos <= b.len()
}

/// The place behind an expected byte, or what stands there in its place.
pub open spec fn expected(b: Seq<u8>, c: Cur, x: u8) -> Result<Cur, FlutterFault> {
    let c1 = blank(b, c);
    match at(b, c1) {
        Some(y) => if y == x {
            Ok(next(b, c1))
        } else {
            Err(
                fault(
                    "expected '"@.push(x as char) + "', got '"@.push(y as char) + "'"@,
                    c1,
                ),
            )
        },
        None => Err(fault("expected '"@.push(x as char) + "', got EOF"@, c1)),
    }
}

/// The end of a number, and whether it has a fraction: an optional minus, digits, and a point
/// with digits behind it.
pub open spec fn number_end(b: Seq<u8>, c: Cur) -> (Cur, bool) {
    let c0 = if at(b, c) == Some(45u8) {
        next(b, c)
    } else {
        c
    };
    let c1 = run_end(b, c0, Class::Digit);
    if at(b, c1) == Some(46u8) && c1.pos + 1 < b.len() && digit(b[c1.pos + 1]) {
        (run_end(b, next(b, c1), Class::Digit), true)
    } else {
        (c1, false)
    }
}

/// The colour that the bits `0xAARRGGBB` mean, packed as `0xRRGGBBAA`.
pub open spec fn rgba_of_argb(v: int) -> int {
    (v % 0x100_0000) * 256 + v / 0x100_0000
}

/// A colour written `0xAARRGGBB`, and the place behind it.
pub open spec fn color_literal(b: Seq<u8>, c: Cur) -> Result<(u32, Cur), FlutterFault> {
    let c0 = blank(b, c);
    let c1 = next(b, c0);
    if at(b, c0) != Some(48u8) {
        Err(fault("expected '0x' for Color literal"@, c0))
    } else if at(b, c1) != Some(120u8) && at(b, c1) != Some(88u8) {
        Err(fault("expected '0x' for Color literal"@, c1))
    } else {
        let c2 = next(b, c1);
        let c3 = run_end(b, c2, Class::Hex);
        let hex = between(b, c2, c3);
        if is_hex_u32(hex) {
            Ok((rgba_of_argb(hex_value(hex)) as u32, c3))
        } else {
            Err(fault("invalid hex in Color literal"@, c3))
        }
    }
}

/// How the positional arguments of a call are named among its arguments.
pub open spec fn positional_name() -> Seq<char> {
    "__positional__"@
}

/// The named ones among the first `i` arguments.
pub open spec fn named_args(args: Seq<(Seq<char>, FlutterValue, int)>, i: int) -> Seq<(Seq<char>, FlutterValue, int)>
    decreases i,
{
    if i <= 0 {
        Seq::empty()
    } else if args[i - 1].0 == positional_name() {
        named_args(args, i - 1)
    } else {
        named_args(args, i - 1).push(args[i - 1])
    }
}

/// The last positional text among the first `i` arguments.
pub open spec fn positional_text(args: Seq<(Seq<char>, FlutterValue, int)>, i: int) -> Option<Seq<char>>
    decreases i,
{
    if i <= 0 {
        None
    } else if args[i - 1].0 == positional_name() && args[i - 1].1 is Str {
        Some(args[i - 1].1->Str_0)
    } else {
        positional_text(args, i - 1)
    }
}

/// The widget that a kind and a list of arguments make.
pub open spec fn widget_from(kind: Seq<char>, args: Seq<(Seq<char>, FlutterValue, int)>) -> FlutterWidget {
    FlutterWidget {
        kind,
        args: named_args(args, args.len() as int),
        positional: positional_text(args, args.len() as int),
    }
}

/// A source place from which nothing was read.
pub open spec fn stuck() -> FlutterFault {
    FlutterFault { message: Seq::empty(), line: 0 }
}

/// The value that begins at a place, and the place behind it.
pub open spec fn value_at(b: Seq<u8>, c: Cur) -> Result<(FlutterValue, Cur), FlutterFault>
    decreases b.len() - c.pos, 0int,
{
    let c0 = blank(b, c);
    match at(b, c0) {
        None => Err(fault("unexpected EOF while parsing value"@, c0)),
        Some(x) => if x == 34 || x == 39 {
            match literal(b, next(b, c0), x, true, Seq::empty()) {
                Ok((text, c1)) => Ok((FlutterValue::Str(text), c1)),
                Err((Cut::InText, c1)) => Err(fault("unterminated string literal"@, c1)),
                Err((Cut::InEscape, c1)) => Err(fault("unterminated escape"@, c1)),
            }
        } else if x == 91 {
            if ahead(b, c, next(b, c0)) {
                match items_at(b, next(b, c0), Seq::empty()) {
                    Ok((items, c1)) => Ok((FlutterValue::List(items), c1)),
                    Err(e) => Err(e),
                }
            } else {
                Err(stuck())
            }
        } else if digit(x) || x == 45 {
            let (c1, fraction) = number_end(b, c0);
            let text = between(b, c0, c1);
            Ok(
                (
                    if fraction {
                        FlutterValue::Float(text)
                    } else {
                        FlutterValue::Int(text)
                    },
                    c1,
                ),
            )
        } else {
            let c1 = run_end(b, c0, Class::Word);
            let word = between(b, c0, c1);
            if word == "true"@ {
                Ok((FlutterValue::Bool(true), c1))
            } else if word == "false"@ {
                Ok((FlutterValue::Bool(false), c1))
            } else if word == ""@ {
                Err(fault("expected a value"@, c1))
            } else {
                let c2 = blank(b, c1);
                if at(b, c2) != Some(40u8) {
                    Ok((FlutterValue::Ident(word), c2))
                } else if word == "Color"@ {
                    match color_literal(b, blank(b, next(b, c2))) {
                        Err(e) => Err(e),
                        Ok((color, c3)) => {
                            let c4 = blank(b, c3);
                            let c5 = if at(b, c4) == Some(44u8) {
                                next(b, c4)
                            } else {
                                c4
                            };
                            match expected(b, blank(b, c5), 41) {
                                Ok(c6) => Ok((FlutterValue::Color(color), c6)),
                                Err(e) => Err(e),
                            }
                        },
                    }
                } else if ahead(b, c, next(b, c2)) {
                    match args_at(b, next(b, c2), Seq::empty()) {
                        Err(e) => Err(e),
                        Ok((args, c3)) => if word == "TextStyle"@ {
                            Ok(
                                (
                                    FlutterValue::Widget(
                                        FlutterWidget { kind: word, args, positional: None },
                                    ),
                                    c3,
                                ),
                            )
                        } else {
                            Ok((FlutterValue::Widget(widget_from(word, args)), c3))
                        },
                    }
                } else {
                    Err(stuck())
                }
            }
        },
    }
}

/// The rest of a list after `acc`, and the place behind its closing bracket.
pub open spec fn items_at(b: Seq<u8>, c: Cur, acc: Seq<FlutterValue>) -> Result<
    (Seq<FlutterValue>, Cur),
    FlutterFault,
>
    decreases b.len() - c.pos, 1int,
{
    let c0 = blank(b, c);
    if at(b, c0) == Some(93u8) {
        Ok((acc, next(b, c0)))
    } else if at(b, c0) is None {
        Err(fault("unexpected EOF in list"@, c0))
    } else if onward(b, c, c0) {
        match value_at(b, c0) {
            Err(e) => Err(e),
            Ok((v, c1)) => {
                let c2 = blank(b, c1);
                let c3 = if at(b, c2) == Some(44u8) {
                    next(b, c2)
                } else {
                    c2
                };
                if ahead(b, c, c3) {
                    items_at(b, c3, acc.push(v))
                } else {
                    Err(stuck())
                }
            },
        }
    } else {
        Err(stuck())
    }
}

/// The rest of an argument list after `acc`, and the place behind its closing bracket.
pub open spec fn args_at(b: Seq<u8>, c: Cur, acc: Seq<(Seq<char>, FlutterValue, int)>) -> Result<
    (Seq<(Seq<char>, FlutterValue, int)>, Cur),
    FlutterFault,
>
    decreases b.len() - c.pos, 1int,
{
    let c0 = blank(b, c);
    if at(b, c0) == Some(41u8) {
        Ok((acc, next(b, c0)))
    } else if at(b, c0) is None {
        Err(fault("unexpected EOF in argument list"@, c0))
    } else {
        let c1 = run_end(b, c0, Class::Word);
        let word = between(b, c0, c1);
        let c2 = blank(b, c1);
        let named = word.len() > 0 && at(b, c2) == Some(58u8);
        let from = if named {
            next(b, c2)
        } else {
            c0
        };
        if onward(b, c, from) {
            match value_at(b, from) {
                Err(e) => Err(e),
                Ok((v, c3)) => {
                    let c4 = blank(b, c3);
                    let c5 = if at(b, c4) == Some(44u8) {
                        next(b, c4)
                    } else {
                        c4
                    };
                    if ahead(b, c, c5) {
                        args_at(
                            b,
                            c5,
                            acc.push(
                                (
                                    if named {
                                        word
                                    } else {
                                        positional_name()
                                    },
                                    v,
                                    line_at(c0),
                                ),
                            ),
                        )
                    } else {
                        Err(stuck())
                    }
                },
            }
        } else {
            Err(stuck())
        }
    }
}

/// The widget that a source begins with, if it begins with one.
pub open spec fn source_widget(b: Seq<u8>) -> Result<Option<FlutterWidget>, FlutterFault> {
    let c0 = blank(b, start());
    let c1 = run_end(b, c0, Class::Word);
    let kind = between(b, c0, c1);
    if at(b, c0) is None || kind.len() == 0 {
        Ok(None)
    } else {
        match expected(b, blank(b, c1), 40) {
            Err(e) => Err(e),
            Ok(c2) => match args_at(b, c2, Seq::empty()) {
                Err(e) => Err(e),
                Ok((args, _)) => Ok(Some(widget_from(kind, args))),
            },
        }
    }
}

/// How many widgets a value holds.
pub open spec fn widgets_in(v: FlutterValue) -> nat
    decreases v,
{
    match v {
        FlutterValue::Widget(w) => 1 + widgets_in_args(w.args),
        FlutterValue::List(items) => widgets_in_items(items),
        _ => 0,
    }
}

/// How many widgets a list of values holds.
pub open spec fn widgets_in_items(s: Seq<FlutterValue>) -> nat
    decreases s,
{
    if s.len() == 0 {
        0
    } else {
        widgets_in_items(s.drop_last()) + widgets_in(s.last())
    }
}

/// How many widgets a list of arguments holds.
pub open spec fn widgets_in_args(s: Seq<(Seq<char>, FlutterValue, int)>) -> nat
    decreases s,
{
    if s.len() == 0 {
        0
    } else {
        widgets_in_args(s.drop_last()) + widgets_in(s.last().1)
    }
}

proof fn lemma_named_fewer(args: Seq<(Seq<char>, FlutterValue, int)>, i: int)
    requires
        0 <= i <= args.len(),
    ensures
        widgets_in_args(named_args(args, i)) <= widgets_in_args(args.take(i)),
    decreases i,
{
    if i > 0 {
        lemma_named_fewer(args, i - 1);
        assert(args.take(i).drop_last() =~= args.take(i - 1));
        let n = named_args(args, i - 1);
        assert(n.push(args[i - 1]).drop_last() =~= n);
    }
}

fn err(message: &str, line: usize) -> (r: FlutterImportError)
    ensures
        r@.message == message@,
        r@.line == line,
{
    FlutterImportError { message: copy(message), line }
}

fn mismatch(x: u8, got: Option<u8>, line: usize) -> (r: FlutterImportError)
    ensures
        r@.line == line,
        r@.message == (match got {
            Some(y) => "expected '"@.push(x as char) + "', got '"@.push(y as char) + "'"@,
            None => "expected '"@.push(x as char) + "', got EOF"@,
        }),
{
    let mut message = copy("expected '");
    message.push(x as char);
    match got {
        Some(y) => {
            let mut tail = copy("', got '");
            tail.push(y as char);
            message.append(tail.as_str());
            message.append("'");
        },
        None => {
            message.append("', got EOF");
        },
    }
    FlutterImportError { message, line }
}

fn expect_byte(lex: &mut Scanner<'_>, x: u8) -> (r: Result<(), FlutterImportError>)
    ensures
        final(lex).bytes() == old(lex).bytes(),
        match expected(old(lex).bytes(), old(lex).cur(), x) {
            Ok(c) => r is Ok && final(lex).cur() == c,
            Err(e) => r is Err && r->Err_0@ == e,
        },
        old(lex).cur().pos <= final(lex).cur().pos,
{
    lex.skip_run(Class::Space);
    let got = lex.peek();
    match got {
        Some(y) => {
            if y == x {
                lex.advance();
                Ok(())
            } else {
                Err(mismatch(x, got, lex.line()))
            }
        },
        None => Err(mismatch(x, got, lex.line())),
    }
}

/// Takes a number; the text of it, and whether it has a fraction.
fn read_number(lex: &mut Scanner<'_>) -> (r: (String, bool))
    ensures
        final(lex).bytes() == old(lex).bytes(),
        (final(lex).cur(), r.1) == number_end(old(lex).bytes(), old(lex).cur()),
        r.0@ == between(old(lex).bytes(), old(lex).cur(), final(lex).cur()),
        old(lex).cur().pos <= final(lex).cur().pos,
        (at(old(lex).bytes(), old(lex).cur()) matches Some(x) && (digit(x) || x == 45)) ==> old(
            lex,
        ).cur().pos < final(lex).cur().pos,
{
    let ghost b = lex.bytes();
    let ghost from = lex.cur();
    lex.bounds();
    proof {
        lemma_run_end(b, from, Class::Digit);
    }
    let mut text = String::new();
    if lex.peek() == Some(45u8) {
        lex.advance();
        text.push('-');
        assert(text@ =~= between(b, from, lex.cur()));
    }
    let ghost c0 = lex.cur();
    let whole = lex.read_run(Class::Digit);
    text.append(whole.as_str());
    let ghost c1 = lex.cur();
    assert(text@ =~= between(b, from, c1));
    let fraction = match lex.peek_second() {
        Some(d) => is_class(Class::Digit, d),
        None => false,
    };
    if lex.peek() == Some(46u8) && fraction {
        lex.advance();
        text.push('.');
        let part = lex.read_run(Class::Digit);
        text.append(part.as_str());
        assert(text@ =~= between(b, from, lex.cur()));
        (text, true)
    } else {
        (text, false)
    }
}

/// Takes a colour written `0xAARRGGBB`.
fn parse_color_literal(lex: &mut Scanner<'_>) -> (r: Result<u32, FlutterImportError>)
    ensures
        final(lex).bytes() == old(lex).bytes(),
        match color_literal(old(lex).bytes(), old(lex).cur()) {
            Ok((v, c)) => r == Ok::<u32, FlutterImportError>(v) && final(lex).cur() == c,
            Err(e) => r is Err && r->Err_0@ == e,
        },
        old(lex).cur().pos <= final(lex).cur().pos,
{
    lex.skip_run(Class::Space);
    if lex.peek() != Some(48u8) {
        return Err(err("expected '0x' for Color literal", lex.line()));
    }
    lex.advance();
    let mark = lex.peek();
    if mark != Some(120u8) && mark != Some(88u8) {
        return Err(err("expected '0x' for Color literal", lex.line()));
    }
    lex.advance();
    let hex = lex.read_run(Class::Hex);
    match parse_hex(hex.as_str()) {
        None => Err(err("invalid hex in Color literal", lex.line())),
        Some(v) => {
            let low: u32 = v % 0x100_0000;
            Ok(low * 256 + v / 0x100_0000)
        },
    }
}

spec fn values_of(s: Seq<FVal>) -> Seq<FlutterValue> {
    s.map_values(|v: FVal| value_of(v))
}

spec fn args_of(s: Seq<(String, FVal, usize)>) -> Seq<(Seq<char>, FlutterValue, int)> {
    s.map_values(|e: (String, FVal, usize)| (e.0@, value_of(e.1), e.2 as int))
}

proof fn lemma_list_of(items: Vec<FVal>)
    ensures
        value_of(FVal::List(items)) == FlutterValue::List(values_of(items@)),
{
    assert(value_of(FVal::List(items))->List_0 =~= values_of(items@));
}

proof fn lemma_widget_of(w: FWidget)
    ensures
        widget_of(w).args == args_of(w.args@),
{
    assert(widget_of(w).args =~= args_of(w.args@));
}

/// The widget that a kind and a list of arguments make.
fn make_widget(kind: String, args: Vec<(String, FVal, usize)>) -> (r: FWidget)
    ensures
        widget_of(r) == widget_from(kind@, args_of(args@)),
        widgets_in_args(widget_of(r).args) <= widgets_in_args(args_of(args@)),
{
    let ghost all = args_of(args@);
    let ghost given = args@;
    let mut named: Vec<(String, FVal, usize)> = Vec::new();
    let mut positional: Option<String> = None;
    assert(args_of(named@) =~= named_args(all, 0));
    for e in it: args.into_iter()
        invariant
            it.seq() == given,
            all == args_of(given),
            args_of(named@) == named_args(all, it.index() as int),
            (match positional {
                Some(s) => Some(s@),
                None => None,
            }) == positional_text(all, it.index() as int),
    {
        let ghost i = it.index() as int;
        let (k, v, line) = e;
        assert(all[i] == (k@, value_of(v), line as int));
        if same(k.as_str(), "__positional__") {
            match v {
                FVal::Str(s) => {
                    positional = Some(s);
                },
                _ => {},
            }
        } else {
            let ghost before = args_of(named@);
            let ghost model = (k@, value_of(v), line as int);
            named.push((k, v, line));
            assert(args_of(named@) =~= before.push(model));
        }
    }
    let r = FWidget { kind, args: named, positional };
    proof {
        lemma_widget_of(r);
        lemma_named_fewer(all, all.len() as int);
        assert(all.take(all.len() as int) =~= all);
    }
    r
}

/// Takes one value.
fn parse_value(lex: &mut Scanner<'_>) -> (r: Result<FVal, FlutterImportError>)
    ensures
        final(lex).bytes() == old(lex).bytes(),
        match value_at(old(lex).bytes(), old(lex).cur()) {
            Ok((v, c)) => r is Ok && value_of(r->Ok_0) == v && final(lex).cur() == c,
            Err(e) => r is Err && r->Err_0@ == e,
        },
        r is Ok ==> old(lex).cur().pos < final(lex).cur().pos && widgets_in(value_of(r->Ok_0))
            <= final(lex).cur().pos - old(lex).cur().pos,
    decreases old(lex).bytes().len() - old(lex).cur().pos, 0int,
{
    let ghost b = lex.bytes();
    let ghost c = lex.cur();
    lex.bounds();
    lex.skip_run(Class::Space);
    let ghost c0 = lex.cur();
    match lex.peek() {
        None => Err(err("unexpected EOF while parsing value", lex.line())),
        Some(x) => {
            if x == 34 || x == 39 {
                lex.advance();
                match lex.read_literal(x, true) {
                    Ok(text) => Ok(FVal::Str(text)),
                    Err(Cut::InText) => Err(err("unterminated string literal", lex.line())),
                    Err(Cut::InEscape) => Err(err("unterminated escape", lex.line())),
                }
            } else if x == 91 {
                lex.advance();
                let items = match parse_items(lex) {
                    Ok(items) => items,
                    Err(e) => {
                        return Err(e);
                    },
                };
                proof {
                    lemma_list_of(items);
                }
                Ok(FVal::List(items))
            } else if is_class(Class::Digit, x) || x == 45 {
                let (text, fraction) = read_number(lex);
                if fraction {
                    Ok(FVal::Float(text))
                } else {
                    Ok(FVal::Int(text))
                }
            } else {
                let word = lex.read_run(Class::Word);
                if same(word.as_str(), "true") {
                    proof {
                        reveal_strlit("true");
                    }
                    return Ok(FVal::Bool(true));
                }
                if same(word.as_str(), "false") {
                    proof {
                        reveal_strlit("false");
                    }
                    return Ok(FVal::Bool(false));
                }
                if same(word.as_str(), "") {
                    return Err(err("expected a value", lex.line()));
                }
                proof {
                    reveal_strlit("");
                    assert(word@.len() > 0) by {
                        if word@.len() == 0 {
                            assert(word@ =~= ""@);
                        }
                    }
                }
                lex.skip_run(Class::Space);
                if lex.peek() != Some(40u8) {
                    return Ok(FVal::Ident(word));
                }
                lex.advance();
                if same(word.as_str(), "Color") {
                    lex.skip_run(Class::Space);
                    let color = match parse_color_literal(lex) {
                        Ok(v) => v,
                        Err(e) => {
                            return Err(e);
                        },
                    };
                    lex.skip_run(Class::Space);
                    if lex.peek() == Some(44u8) {
                        lex.advance();
                    }
                    lex.skip_run(Class::Space);
                    match expect_byte(lex, 41) {
                        Ok(_) => {},
                        Err(e) => {
                            return Err(e);
                        },
                    }
                    return Ok(FVal::Color(color));
                }
                let style = same(word.as_str(), "TextStyle");
                let args = match parse_arg_list(lex) {
                    Ok(args) => args,
                    Err(e) => {
                        return Err(e);
                    },
                };
                let widget = if style {
                    FWidget { kind: word, args, positional: None }
                } else {
                    make_widget(word, args)
                };
                proof {
                    lemma_widget_of(widget);
                }
                Ok(FVal::Widget(widget))
            }
        },
    }
}

/// Takes the rest of a list after its opening bracket.
fn parse_items(lex: &mut Scanner<'_>) -> (r: Result<Vec<FVal>, FlutterImportError>)
    ensures
        final(lex).bytes() == old(lex).bytes(),
        match items_at(old(lex).bytes(), old(lex).cur(), Seq::empty()) {
            Ok((items, c)) => r is Ok && values_of(r->Ok_0@) == items && final(lex).cur() == c,
            Err(e) => r is Err && r->Err_0@ == e,
        },
        r is Ok ==> old(lex).cur().pos < final(lex).cur().pos && widgets_in_items(values_of(r->Ok_0@))
            <= final(lex).cur().pos - old(lex).cur().pos,
    decreases old(lex).bytes().len() - old(lex).cur().pos, 2int,
{
    let ghost b = lex.bytes();
    let ghost from = lex.cur();
    let ghost goal = items_at(b, from, Seq::empty());
    let mut items: Vec<FVal> = Vec::new();
    assert(values_of(items@) =~= Seq::<FlutterValue>::empty());
    lex.bounds();
    loop
        invariant
            lex.bytes() == b,
            b == old(lex).bytes(),
            from == old(lex).cur(),
            0 <= from.pos <= lex.cur().pos <= b.len(),
            items_at(b, lex.cur(), values_of(items@)) == goal,
            goal == items_at(b, from, Seq::empty()),
            widgets_in_items(values_of(items@)) <= lex.cur().pos - from.pos,
        decreases b.len() - lex.cur().pos,
    {
        lex.skip_run(Class::Space);
        let first = lex.peek();
        if first == Some(93u8) {
            lex.advance();
            return Ok(items);
        }
        if first.is_none() {
            return Err(err("unexpected EOF in list", lex.line()));
        }
        let item = match parse_value(lex) {
            Ok(v) => v,
            Err(e) => {
                return Err(e);
            },
        };
        let ghost before = values_of(items@);
        let ghost model = value_of(item);
        items.push(item);
        proof {
            assert(values_of(items@) =~= before.push(model));
            assert(before.push(model).drop_last() =~= before);
        }
        lex.bounds();
        lex.skip_run(Class::Space);
        if lex.peek() == Some(44u8) {
            lex.advance();
        }
    }
}

/// Takes the rest of an argument list after its opening bracket.
fn parse_arg_list(lex: &mut Scanner<'_>) -> (r: Result<Vec<(String, FVal, usize)>, FlutterImportError>)
    ensures
        final(lex).bytes() == old(lex).bytes(),
        match args_at(old(lex).bytes(), old(lex).cur(), Seq::empty()) {
            Ok((args, c)) => r is Ok && args_of(r->Ok_0@) == args && final(lex).cur() == c,
            Err(e) => r is Err && r->Err_0@ == e,
        },
        r is Ok ==> old(lex).cur().pos < final(lex).cur().pos && widgets_in_args(args_of(r->Ok_0@))
            <= final(lex).cur().pos - old(lex).cur().pos,
    decreases old(lex).bytes().len() - old(lex).cur().pos, 2int,
{
    let ghost b = lex.bytes();
    let ghost from = lex.cur();
    let ghost goal = args_at(b, from, Seq::empty());
    let mut args: Vec<(String, FVal, usize)> = Vec::new();
    assert(args_of(args@) =~= Seq::<(Seq<char>, FlutterValue, int)>::empty());
    lex.bounds();
    loop
        invariant
            lex.bytes() == b,
            b == old(lex).bytes(),
            from == old(lex).cur(),
            0 <= from.pos <= lex.cur().pos <= b.len(),
            args_at(b, lex.cur(), args_of(args@)) == goal,
            goal == args_at(b, from, Seq::empty()),
            widgets_in_args(args_of(args@)) <= lex.cur().pos - from.pos,
        decreases b.len() - lex.cur().pos,
    {
        lex.skip_run(Class::Space);
        let first = lex.peek();
        if first == Some(41u8) {
            lex.advance();
            return Ok(args);
        }
        if first.is_none() {
            return Err(err("unexpected EOF in argument list", lex.line()));
        }
        let saved = lex.mark();
        let line: usize = lex.line();
        let word = lex.read_run(Class::Word);
        lex.skip_run(Class::Space);
        let named = !word.as_str().is_empty() && lex.peek() == Some(58u8);
        let name = if named {
            lex.advance();
            word
        } else {
            lex.rewind(&saved);
            copy("__positional__")
        };
        lex.bounds();
        let value = match parse_value(lex) {
            Ok(v) => v,
            Err(e) => {
                return Err(e);
            },
        };
        let ghost before = args_of(args@);
        let ghost model = (name@, value_of(value), line as int);
        args.push((name, value, line));
        proof {
            assert(args_of(args@) =~= before.push(model));
            assert(before.push(model).drop_last() =~= before);
        }
        lex.bounds();
        lex.skip_run(Class::Space);
        if lex.peek() == Some(44u8) {
            lex.advance();
        }
    }
}

/// The kind of node that a widget becomes.
pub open spec fn node_kind(kind: Seq<char>) -> Seq<char> {
    if kind == "Container"@ || kind == "Scaffold"@ || kind == "Padding"@ {
        "Stack"@
    } else if kind == "ElevatedButton"@ || kind == "TextButton"@ || kind == "FilledButton"@ {
        "Button"@
    } else if kind == "SizedBox"@ {
        "Rect"@
    } else {
        kind
    }
}

/// The property that an argument becomes; structure, callbacks and styles become none.
pub open spec fn node_prop(name: Seq<char>) -> Option<Seq<char>> {
    if name == "child"@ || name == "children"@ || name == "onPressed"@ || name == "onTap"@ || name == "style"@ {
        None
    } else if name == "text"@ || name == "data"@ {
        Some("content"@)
    } else if name == "fontSize"@ || name == "font-size"@ {
        Some("size"@)
    } else if name == "foregroundColor"@ {
        Some("color"@)
    } else if name == "backgroundColor"@ {
        Some("background"@)
    } else if name == "borderRadius"@ {
        Some("corner_radius"@)
    } else {
        Some(name)
    }
}

/// The number that a decimal text denotes, `0.0` where it denotes none.
pub open spec fn number(fl: Unit, text: Seq<char>) -> u64 {
    bits(fl(FloatQuery::Read { text }))
}

/// The property value that an argument value becomes, if it is a literal.
pub open spec fn literal_value(v: FlutterValue, fl: Unit) -> Option<ValueModel> {
    match v {
        FlutterValue::Str(s) => Some(ValueModel::Text(s)),
        FlutterValue::Color(c) => Some(ValueModel::Color(c)),
        FlutterValue::Float(s) => Some(ValueModel::Float(number(fl, s))),
        FlutterValue::Int(s) => Some(
            ValueModel::Int(truncated(number(fl, s), i64::MIN as int, i64::MAX as int) as i64),
        ),
        FlutterValue::Bool(x) => Some(ValueModel::Bool(x)),
        FlutterValue::Widget(_) => None,
        FlutterValue::List(_) => None,
        FlutterValue::Ident(_) => None,
    }
}

/// The sort of an argument value, as omissions name it.
pub open spec fn shape(v: FlutterValue) -> Seq<char> {
    match v {
        FlutterValue::Str(_) => "string"@,
        FlutterValue::Color(_) => "color"@,
        FlutterValue::Float(_) => "float"@,
        FlutterValue::Int(_) => "int"@,
        FlutterValue::Bool(_) => "bool"@,
        FlutterValue::Widget(_) => "widget-expr"@,
        FlutterValue::List(_) => "list"@,
        FlutterValue::Ident(_) => "ident-expr"@,
    }
}

/// The name of the action that a callback argument means.
pub open spec fn action_name(key: Seq<char>, v: FlutterValue) -> Seq<char> {
    match v {
        FlutterValue::Str(s) => s,
        FlutterValue::Ident(s) => s,
        _ => key,
    }
}

/// The document after the style arguments from the `i`-th on were set on a node.
pub open spec fn styled(
    id: NodeId,
    args: Seq<(Seq<char>, FlutterValue, int)>,
    i: int,
    d: DocModel,
    fl: Unit,
) -> DocModel
    decreases args.len() - i,
{
    if i < 0 || i >= args.len() {
        d
    } else {
        let (k, v, _) = args[i];
        let d1 = match (node_prop(k), literal_value(v, fl)) {
            (Some(key), Some(value)) => sys(d, MutationModel::SetProp { id, key, value }),
            _ => d,
        };
        styled(id, args, i + 1, d1, fl)
    }
}

/// The document and the omissions after a widget was added. Its node gets the next id.
pub open spec fn lowered(w: FlutterWidget, d: DocModel, un: Seq<Omission>, fl: Unit) -> (
    DocModel,
    Seq<Omission>,
)
    decreases w, w.args.len() + 1,
{
    let id = NodeId(d.next_id);
    let d1 = created(d, node_kind(w.kind));
    let d2 = match w.positional {
        Some(s) => sys(
            d1,
            MutationModel::SetProp { id, key: "content"@, value: ValueModel::Text(s) },
        ),
        None => d1,
    };
    lowered_args(w, id, 0, d2, un, fl)
}

/// The document and the omissions after the arguments from the `i`-th on were put on a node.
pub open spec fn lowered_args(
    w: FlutterWidget,
    id: NodeId,
    i: int,
    d: DocModel,
    un: Seq<Omission>,
    fl: Unit,
) -> (DocModel, Seq<Omission>)
    decreases w, w.args.len() - i,
{
    if i < 0 || i >= w.args.len() {
        (d, un)
    } else {
        let key = w.args[i].0;
        let v = w.args[i].1;
        let (d1, un1) = if key == "child"@ {
            match v {
                FlutterValue::Widget(cw) => {
                    let (dc, unc) = lowered(cw, d, un, fl);
                    (
                        sys(dc, MutationModel::AppendChild { parent: id, child: NodeId(d.next_id) }),
                        unc,
                    )
                },
                _ => (d, un),
            }
        } else if key == "children"@ {
            match v {
                FlutterValue::List(items) => lowered_items(items, id, 0, d, un, fl),
                _ => (d, un),
            }
        } else if key == "onPressed"@ || key == "onTap"@ {
            (
                sys(
                    d,
                    MutationModel::SetCallback {
                        id,
                        event: "click"@,
                        action: ActionModel { name: action_name(key, v), args: Seq::empty() },
                    },
                ),
                un,
            )
        } else if key == "style"@ {
            match v {
                FlutterValue::Widget(sw) => (styled(id, sw.args, 0, d, fl), un),
                _ => (d, un),
            }
        } else {
            let name = if key == "color"@ && w.kind != "Text"@ {
                "background"@
            } else {
                node_prop(key)->0
            };
            match literal_value(v, fl) {
                Some(value) => (sys(d, MutationModel::SetProp { id, key: name, value }), un),
                None => (
                    d,
                    un.push(
                        Omission { line: w.args[i].2, text: "prop '"@ + key + "' = "@ + shape(v) },
                    ),
                ),
            }
        };
        lowered_args(w, id, i + 1, d1, un1, fl)
    }
}

/// The document and the omissions after the widgets of a list from the `j`-th on became children.
pub open spec fn lowered_items(
    items: Seq<FlutterValue>,
    id: NodeId,
    j: int,
    d: DocModel,
    un: Seq<Omission>,
    fl: Unit,
) -> (DocModel, Seq<Omission>)
    decreases items, items.len() - j,
{
    if j < 0 || j >= items.len() {
        (d, un)
    } else {
        let (d1, un1) = match items[j] {
            FlutterValue::Widget(cw) => {
                let (dc, unc) = lowered(cw, d, un, fl);
                (
                    sys(dc, MutationModel::AppendChild { parent: id, child: NodeId(d.next_id) }),
                    unc,
                )
            },
            _ => (d, un),
        };
        lowered_items(items, id, j + 1, d1, un1, fl)
    }
}

fn map_kind(kind: &str) -> (r: String)
    ensures
        r@ == node_kind(kind@),
{
    if same(kind, "Container") || same(kind, "Scaffold") || same(kind, "Padding") {
        copy("Stack")
    } else if same(kind, "ElevatedButton") || same(kind, "TextButton") || same(kind, "FilledButton") {
        copy("Button")
    } else if same(kind, "SizedBox") {
        copy("Rect")
    } else {
        copy(kind)
    }
}

fn map_prop(name: &str) -> (r: Option<String>)
    ensures
        match node_prop(name@) {
            Some(p) => r is Some && r->0@ == p,
            None => r is None,
        },
{
    if same(name, "child") || same(name, "children") || same(name, "onPressed") || same(name, "onTap")
        || same(name, "style") {
        None
    } else if same(name, "text") || same(name, "data") {
        Some(copy("content"))
    } else if same(name, "fontSize") || same(name, "font-size") {
        Some(copy("size"))
    } else if same(name, "foregroundColor") {
        Some(copy("color"))
    } else if same(name, "backgroundColor") {
        Some(copy("background"))
    } else if same(name, "borderRadius") {
        Some(copy("corner_radius"))
    } else {
        Some(copy(name))
    }
}

fn fval_to_ir<F: Fn(&FloatOp) -> Option<u64>>(v: &FVal, fl: &F) -> (r: Option<Value>)
    requires
        steady(*fl),
    ensures
        match literal_value(value_of(*v), unit(*fl)) {
            Some(m) => r is Some && r->0@ == m,
            None => r is None,
        },
{
    match v {
        FVal::Str(s) => Some(Value::Text(s.clone())),
        FVal::Color(c) => Some(Value::Color(*c)),
        FVal::Float(s) => Some(Value::Float(read_or_zero(fl, s.as_str()))),
        FVal::Int(s) => Some(Value::Int(to_i64(read_or_zero(fl, s.as_str())))),
        FVal::Bool(x) => Some(Value::Bool(*x)),
        FVal::Widget(_) => None,
        FVal::List(_) => None,
        FVal::Ident(_) => None,
    }
}

fn fval_shape(v: &FVal) -> (r: String)
    ensures
        r@ == shape(value_of(*v)),
{
    match v {
        FVal::Str(_) => copy("string"),
        FVal::Color(_) => copy("color"),
        FVal::Float(_) => copy("float"),
        FVal::Int(_) => copy("int"),
        FVal::Bool(_) => copy("bool"),
        FVal::Widget(_) => copy("widget-expr"),
        FVal::List(_) => copy("list"),
        FVal::Ident(_) => copy("ident-expr"),
    }
}

fn apply_style<F: Fn(&FloatOp) -> Option<u64>>(id: NodeId, w: &FWidget, doc: &mut Document, fl: &F)
    requires
        steady(*fl),
        sprouting(old(doc)@),
    ensures
        final(doc)@ == styled(id, widget_of(*w).args, 0, old(doc)@, unit(*fl)),
        sprouting(final(doc)@),
        rooted_in(old(doc)@, final(doc)@),
        final(doc)@.next_id == old(doc)@.next_id,
{
    let ghost args = widget_of(*w).args;
    let ghost goal = styled(id, args, 0, doc@, unit(*fl));
    let mut i: usize = 0;
    while i < w.args.len()
        invariant
            steady(*fl),
            args == widget_of(*w).args,
            args.len() == w.args@.len(),
            i <= w.args@.len(),
            styled(id, args, i as int, doc@, unit(*fl)) == goal,
            sprouting(doc@),
            rooted_in(old(doc)@, doc@),
            doc@.next_id == old(doc)@.next_id,
        decreases w.args.len() - i,
    {
        let e = &w.args[i];
        assert(args[i as int] == (e.0@, value_of(e.1), e.2 as int));
        match map_prop(e.0.as_str()) {
            Some(key) => match fval_to_ir(&e.1, fl) {
                Some(value) => {
                    apply_system(doc, Mutation::SetProp { id, key, value });
                },
                None => {},
            },
            None => {},
        }
        i += 1;
    }
}

proof fn lemma_args_prefix(s: Seq<(Seq<char>, FlutterValue, int)>, i: int)
    requires
        0 <= i < s.len(),
    ensures
        widgets_in_args(s.take(i + 1)) == widgets_in_args(s.take(i)) + widgets_in(s[i].1),
        widgets_in_args(s.take(i + 1)) <= widgets_in_args(s),
    decreases s.len(),
{
    assert(s.take(i + 1).drop_last() =~= s.take(i));
    lemma_args_total(s, i + 1);
}

proof fn lemma_args_total(s: Seq<(Seq<char>, FlutterValue, int)>, i: int)
    requires
        0 <= i <= s.len(),
    ensures
        widgets_in_args(s.take(i)) <= widgets_in_args(s),
    decreases s.len(),
{
    if i == s.len() {
        assert(s.take(i) =~= s);
    } else {
        lemma_args_total(s.drop_last(), i);
        assert(s.drop_last().take(i) =~= s.take(i));
    }
}

proof fn lemma_items_total(s: Seq<FlutterValue>, i: int)
    requires
        0 <= i <= s.len(),
    ensures
        widgets_in_items(s.take(i)) <= widgets_in_items(s),
        i < s.len() ==> widgets_in_items(s.take(i + 1)) == widgets_in_items(s.take(i)) + widgets_in(s[i]),
    decreases s.len(),
{
    if i < s.len() {
        assert(s.take(i + 1).drop_last() =~= s.take(i));
    }
    if i == s.len() {
        assert(s.take(i) =~= s);
    } else {
        lemma_items_total(s.drop_last(), i);
        assert(s.drop_last().take(i) =~= s.take(i));
    }
}

/// Adds a widget to the document; what has no place there is noted.
fn lower_widget<F: Fn(&FloatOp) -> Option<u64>>(
    w: &FWidget,
    doc: &mut Document,
    unsupported: &mut Vec<Unsupported>,
    fl: &F,
) -> (r: NodeId)
    requires
        steady(*fl),
        sprouting(old(doc)@),
        old(doc)@.next_id + 1 + widgets_in_args(widget_of(*w).args) <= u64::MAX,
    ensures
        r == NodeId(old(doc)@.next_id),
        (final(doc)@, omissions(final(unsupported)@)) == lowered(
            widget_of(*w),
            old(doc)@,
            omissions(old(unsupported)@),
            unit(*fl),
        ),
        sprouting(final(doc)@),
        rooted_in(old(doc)@, final(doc)@),
        final(doc)@.tree.nodes.dom().contains(r),
        final(doc)@.tree.nodes[r].parent is None,
        final(doc)@.next_id <= old(doc)@.next_id + 1 + widgets_in_args(widget_of(*w).args),
    decreases w, 1int,
{
    let ghost m = widget_of(*w);
    let ghost un0 = omissions(unsupported@);
    let ghost goal = lowered(m, doc@, un0, unit(*fl));
    let ghost first = doc@.next_id;
    proof {
        lemma_widget_of(*w);
    }
    let id = create(doc, map_kind(w.kind.as_str()));
    match &w.positional {
        Some(s) => {
            apply_system(
                doc,
                Mutation::SetProp { id, key: copy("content"), value: Value::Text(s.clone()) },
            );
        },
        None => {},
    }
    let mut i: usize = 0;
    assert(m.args.take(0) =~= Seq::<(Seq<char>, FlutterValue, int)>::empty());
    while i < w.args.len()
        invariant
            steady(*fl),
            m == widget_of(*w),
            m.args == args_of(w.args@),
            i <= w.args@.len(),
            lowered_args(m, id, i as int, doc@, omissions(unsupported@), unit(*fl)) == goal,
            sprouting(doc@),
            sprouting(old(doc)@),
            rooted_in(old(doc)@, doc@),
            doc@.tree.nodes.dom().contains(id),
            doc@.tree.nodes[id].parent is None,
            first + 1 + widgets_in_args(m.args) <= u64::MAX,
            doc@.next_id <= first + 1 + widgets_in_args(m.args.take(i as int)),
        decreases w.args.len() - i,
    {
        let e = &w.args[i];
        let key = e.0.as_str();
        let val = &e.1;
        assert(m.args[i as int] == (e.0@, value_of(e.1), e.2 as int));
        proof {
            lemma_args_prefix(m.args, i as int);
            assert(decreases_to!(w => w.args@[i as int]));
        }
        if same(key, "child") {
            match val {
                FVal::Widget(cw) => {
                    let child = lower_widget(cw, doc, unsupported, fl);
                    proof {
                        lemma_hung_sprouts(old(doc)@, doc@, id, child);
                    }
                    apply_system(doc, Mutation::AppendChild { parent: id, child });
                },
                _ => {},
            }
        } else if same(key, "children") {
            match val {
                FVal::List(items) => {
                    proof {
                        lemma_list_of(*items);
                    }
                    lower_items(items, id, doc, unsupported, fl);
                },
                _ => {},
            }
        } else if same(key, "onPressed") || same(key, "onTap") {
            let name = match val {
                FVal::Str(s) => s.clone(),
                FVal::Ident(s) => s.clone(),
                _ => copy(key),
            };
            let action = Action { name, args: Vec::new() };
            assert(action@.args =~= Seq::<ValueModel>::empty());
            apply_system(doc, Mutation::SetCallback { id, event: copy("click"), action });
        } else if same(key, "style") {
            match val {
                FVal::Widget(sw) => {
                    apply_style(id, sw, doc, fl);
                },
                _ => {},
            }
        } else {
            let name = if same(key, "color") && !same(w.kind.as_str(), "Text") {
                copy("background")
            } else {
                match map_prop(key) {
                    Some(p) => p,
                    None => copy(key),
                }
            };
            match fval_to_ir(val, fl) {
                Some(value) => {
                    apply_system(doc, Mutation::SetProp { id, key: name, value });
                },
                None => {
                    let mut text = join("prop '", key);
                    text.append("' = ");
                    let s = fval_shape(val);
                    text.append(s.as_str());
                    let ghost before = omissions(unsupported@);
                    let note = Unsupported { line: e.2, text };
                    let ghost model = note@;
                    unsupported.push(note);
                    assert(omissions(unsupported@) =~= before.push(model));
                },
            }
        }
        i += 1;
    }
    assert(m.args.take(i as int) =~= m.args);
    id
}

/// Adds the widgets of a list as children of a node.
fn lower_items<F: Fn(&FloatOp) -> Option<u64>>(
    items: &Vec<FVal>,
    id: NodeId,
    doc: &mut Document,
    unsupported: &mut Vec<Unsupported>,
    fl: &F,
)
    requires
        steady(*fl),
        sprouting(old(doc)@),
        old(doc)@.tree.nodes.dom().contains(id),
        old(doc)@.next_id + widgets_in_items(values_of(items@)) <= u64::MAX,
    ensures
        (final(doc)@, omissions(final(unsupported)@)) == lowered_items(
            values_of(items@),
            id,
            0,
            old(doc)@,
            omissions(old(unsupported)@),
            unit(*fl),
        ),
        sprouting(final(doc)@),
        rooted_in(old(doc)@, final(doc)@),
        final(doc)@.next_id <= old(doc)@.next_id + widgets_in_items(values_of(items@)),
    decreases items, 0int,
{
    let ghost m = values_of(items@);
    let ghost goal = lowered_items(m, id, 0, doc@, omissions(unsupported@), unit(*fl));
    let ghost first = doc@.next_id;
    let mut j: usize = 0;
    assert(m.take(0) =~= Seq::<FlutterValue>::empty());
    while j < items.len()
        invariant
            steady(*fl),
            m == values_of(items@),
            j <= items@.len(),
            lowered_items(m, id, j as int, doc@, omissions(unsupported@), unit(*fl)) == goal,
            sprouting(doc@),
            sprouting(old(doc)@),
            rooted_in(old(doc)@, doc@),
            old(doc)@.tree.nodes.dom().contains(id),
            first == old(doc)@.next_id,
            first + widgets_in_items(m) <= u64::MAX,
            doc@.next_id <= first + widgets_in_items(m.take(j as int)),
        decreases items.len() - j,
    {
        assert(m[j as int] == value_of(items@[j as int]));
        proof {
            lemma_items_total(m, j as int);
            lemma_items_total(m, j + 1);
            assert(decreases_to!(items => items@[j as int]));
        }
        match &items[j] {
            FVal::Widget(cw) => {
                let child = lower_widget(cw, doc, unsupported, fl);
                proof {
                    lemma_hung_sprouts(old(doc)@, doc@, id, child);
                }
                apply_system(doc, Mutation::AppendChild { parent: id, child });
            },
            _ => {},
        }
        j += 1;
    }
    assert(m.take(j as int) =~= m);
}

/// The document and the omissions that a source stands for, or why it cannot be read.
pub open spec fn imported(b: Seq<u8>, fl: Unit) -> Result<(DocModel, Seq<Omission>), FlutterFault> {
    match source_widget(b) {
        Err(e) => Err(e),
        Ok(None) => Ok((empty_doc(), Seq::empty())),
        Ok(Some(w)) => {
            let (d, un) = lowered(w, empty_doc(), Seq::empty(), fl);
            Ok((sys(d, MutationModel::SetRoot { id: NodeId(0) }), un))
        },
    }
}

fn parse_widget(lex: &mut Scanner<'_>) -> (r: Result<Option<FWidget>, FlutterImportError>)
    requires
        old(lex).cur() == start(),
    ensures
        match source_widget(old(lex).bytes()) {
            Ok(Some(w)) => r is Ok && r->Ok_0 is Some && widget_of(r->Ok_0->0) == w,
            Ok(None) => r is Ok && r->Ok_0 is None,
            Err(e) => r is Err && r->Err_0@ == e,
        },
        r matches Ok(Some(w)) ==> 1 + widgets_in_args(widget_of(w).args) <= old(lex).bytes().len(),
        old(lex).bytes().len() <= usize::MAX,
{
    let ghost b = lex.bytes();
    lex.bounds();
    lex.skip_run(Class::Space);
    if lex.peek().is_none() {
        return Ok(None);
    }
    let kind = lex.read_run(Class::Word);
    if kind.as_str().is_empty() {
        return Ok(None);
    }
    lex.skip_run(Class::Space);
    match expect_byte(lex, 40) {
        Ok(_) => {},
        Err(e) => {
            return Err(e);
        },
    }
    lex.bounds();
    let args = match parse_arg_list(lex) {
        Ok(args) => args,
        Err(e) => {
            return Err(e);
        },
    };
    lex.bounds();
    Ok(Some(make_widget(kind, args)))
}

/// Reads a widget tree into a document, and notes the props that were left out. The outermost
/// widget becomes the root.
pub fn parse_with_report<F: Fn(&FloatOp) -> Option<u64>>(src: &str, fl: &F) -> (r: Result<
    ImportReport,
    FlutterImportError,
>)
    requires
        steady(*fl),
    ensures
        match imported(encode_utf8(src@), unit(*fl)) {
            Ok((d, un)) => {
                &&& r is Ok
                &&& r->Ok_0.document@ == d
                &&& omissions(r->Ok_0.unsupported@) == un
            },
            Err(e) => r is Err && r->Err_0@ == e,
        },
        r matches Ok(report) ==> orderly(report.document@),
{
    let mut lex = Scanner::new(src);
    let mut document = Document::new();
    let mut unsupported: Vec<Unsupported> = Vec::new();
    assert(omissions(unsupported@) =~= Seq::<Omission>::empty());
    proof {
        lemma_empty_sprouting();
    }
    match parse_widget(&mut lex) {
        Err(e) => {
            return Err(e);
        },
        Ok(None) => {},
        Ok(Some(w)) => {
            let id = lower_widget(&w, &mut document, &mut unsupported, fl);
            apply_system(&mut document, Mutation::SetRoot { id });
        },
    }
    proof {
        lemma_sprouting_orderly(document@);
    }
    Ok(ImportReport { document, unsupported })
}

/// Reads a widget tree into a document. Its links agree, and it can be walked.
pub fn parse<F: Fn(&FloatOp) -> Option<u64>>(src: &str, fl: &F) -> (r: Result<
    Document,
    FlutterImportError,
>)
    requires
        steady(*fl),
    ensures
        match imported(encode_utf8(src@), unit(*fl)) {
            Ok((d, _)) => r is Ok && r->Ok_0@ == d,
            Err(e) => r is Err && r->Err_0@ == e,
        },
        r matches Ok(d) ==> orderly(d@),
{
    match parse_with_report(src, fl) {
        Ok(report) => Ok(report.document),
        Err(e) => Err(e),
    }
}

} // verus!
