//! SwiftUI sources: views, their arguments, content blocks and modifier chains, read into a
//! document.
use vstd::prelude::*;
use vstd::utf8::encode_utf8;

use crate::float::{
    bits, double, low_half, narrow, read_or_zero, steady, to_u32, truncated, unit, widen, FloatOp,
    FloatQuery, Unit, ONE, TWO_FIFTY_FIVE,
};
use crate::ir::{empty_doc, DocModel, Document, Mutation, MutationModel};
use crate::lowering::{apply_system, create, created, sys};
use crate::lowering_law::{
    lemma_empty_sprouting, lemma_hung_sprouts, lemma_sprouting_orderly, orderly, rooted_in, sprouting,
};
use crate::node::NodeId;
use crate::scan::{
    at, between, closing, digit, is_class, letter, line_at, literal, next, run_end, start, trivia_end,
    upper, Class, Cur, Cut, Scanner,
};
use crate::text::{copy, decimal, decimal_text, join, same};
use crate::value::{Action, ActionModel, Value, ValueModel};

verus! {

/// A source that cannot be read, and the line where that showed.
#[derive(Debug)]
pub struct SwiftUIImportError {
    pub message: String,
    pub line: usize,
}

/// A [`SwiftUIImportError`] as mathematics.
pub struct SwiftFault {
    pub message: Seq<char>,
    pub line: int,
}

impl View for SwiftUIImportError {
    type V = SwiftFault;

    open spec fn view(&self) -> SwiftFault {
        SwiftFault { message: self.message@, line: self.line as int }
    }
}

impl SwiftUIImportError {
    /// The error as one line of text.
    pub fn to_text(&self) -> (r: String)
        ensures
            r@ == "swiftui-import error at line "@ + decimal(self@.line as nat) + ": "@ + self@.message,
    {
        let mut out = copy("swiftui-import error at line ");
        let n = decimal_text(self.line as u64);
        out.append(n.as_str());
        out.append(": ");
        out.append(self.message.as_str());
        out
    }
}

/// A modifier that has no place in a document and was left out, and the line where it began.
#[derive(Debug, Clone, PartialEq, Eq)]
pub struct Unsupported {
    pub line: usize,
    pub text: String,
}

/// An [`Unsupported`] as mathematics.
pub struct Omission {
    pub line: int,
    pub text: Seq<char>,
}

impl View for Unsupported {
    type V = Omission;

    open spec fn view(&self) -> Omission {
        Omission { line: self.line as int, text: self.text@ }
    }
}

/// The models of a list of omissions.
pub open spec fn omissions(s: Seq<Unsupported>) -> Seq<Omission> {
    s.map_values(|u: Unsupported| u@)
}

/// A document read from a source, with what was left out.
#[derive(Debug)]
pub struct ImportReport {
    pub document: Document,
    pub unsupported: Vec<Unsupported>,
}

/// A number: as it was written, a single taken as a double, or one.
#[derive(Debug)]
enum Num {
    Text(String),
    Single(u32),
    One,
}

/// A parsed value.
#[derive(Debug)]
enum SwiftValue {
    Str(String),
    Float(Num),
    Bool(bool),
    Color(u32),
    /// Red, green and blue as fractions.
    Rgb(String, String, String),
    /// A text style, by the bits of its size in pixels.
    FontRole(u32),
    Ident(String),
    Range(String, String),
}

/// A parsed view.
#[derive(Debug)]
struct SwiftView {
    kind: String,
    label: Option<String>,
    props: Vec<(String, SwiftValue)>,
    callbacks: Vec<String>,
    children: Vec<SwiftView>,
    unsupported: Vec<Unsupported>,
}

/// A number as mathematics.
pub enum SwiftNumber {
    Text(Seq<char>),
    Single(u32),
    One,
}

/// A parsed value as mathematics.
pub enum SwiftTerm {
    Str(Seq<char>),
    Float(SwiftNumber),
    Bool(bool),
    Color(u32),
    Rgb(Seq<char>, Seq<char>, Seq<char>),
    FontRole(u32),
    Ident(Seq<char>),
    Range(Seq<char>, Seq<char>),
}

/// A parsed view as mathematics.
#[verifier::ext_equal]
pub struct SwiftNode {
    pub kind: Seq<char>,
    pub label: Option<Seq<char>>,
    pub props: Seq<(Seq<char>, SwiftTerm)>,
    pub callbacks: Seq<Seq<char>>,
    pub children: Seq<SwiftNode>,
    pub unsupported: Seq<Omission>,
}

spec fn number_of(n: Num) -> SwiftNumber {
    match n {
        Num::Text(s) => SwiftNumber::Text(s@),
        Num::Single(b) => SwiftNumber::Single(b),
        Num::One => SwiftNumber::One,
    }
}

spec fn term_of(v: SwiftValue) -> SwiftTerm {
    match v {
        SwiftValue::Str(s) => SwiftTerm::Str(s@),
        SwiftValue::Float(n) => SwiftTerm::Float(number_of(n)),
        SwiftValue::Bool(x) => SwiftTerm::Bool(x),
        SwiftValue::Color(c) => SwiftTerm::Color(c),
        SwiftValue::Rgb(r, g, b) => SwiftTerm::Rgb(r@, g@, b@),
        SwiftValue::FontRole(px) => SwiftTerm::FontRole(px),
        SwiftValue::Ident(s) => SwiftTerm::Ident(s@),
        SwiftValue::Range(lo, hi) => SwiftTerm::Range(lo@, hi@),
    }
}

spec fn terms_of(s: Seq<(String, SwiftValue)>) -> Seq<(Seq<char>, SwiftTerm)> {
    s.map_values(|e: (String, SwiftValue)| (e.0@, term_of(e.1)))
}

spec fn texts_of(s: Seq<String>) -> Seq<Seq<char>> {
    s.map_values(|t: String| t@)
}

spec fn label_of(l: Option<String>) -> Option<Seq<char>> {
    match l {
        Some(s) => Some(s@),
        None => None,
    }
}

/// A view of a kind with nothing in it.
pub open spec fn bare_view(kind: Seq<char>) -> SwiftNode {
    SwiftNode {
        kind,
        label: None,
        props: Seq::empty(),
        callbacks: Seq::empty(),
        children: Seq::empty(),
        unsupported: Seq::empty(),
    }
}

spec fn node_of(v: SwiftView) -> SwiftNode
    decreases v,
{
    SwiftNode {
        kind: v.kind@,
        label: label_of(v.label),
        props: terms_of(v.props@),
        callbacks: texts_of(v.callbacks@),
        children: Seq::new(
            v.children@.len(),
            |i: int|
                if 0 <= i < v.children@.len() {
                    node_of(v.children@[i])
                } else {
                    bare_view(Seq::empty())
                },
        ),
        unsupported: omissions(v.unsupported@),
    }
}

spec fn nodes_of(s: Seq<SwiftView>) -> Seq<SwiftNode> {
    s.map_values(|v: SwiftView| node_of(v))
}

proof fn lemma_node_of(v: SwiftView)
    ensures
        node_of(v).children == nodes_of(v.children@),
{
    assert(node_of(v).children =~= nodes_of(v.children@));
}

/// Why reading stopped.
pub enum SwiftStop {
    /// The source is wrong.
    Fault(SwiftFault),
    /// The reader waits for a closing bracket in front of a byte that it never takes.
    Endless,
}

/// A fault with a message, on the line of a place.
pub open spec fn fault(message: Seq<char>, c: Cur) -> SwiftStop {
    SwiftStop::Fault(SwiftFault { message, line: line_at(c) })
}

/// A source place from which nothing was read.
pub open spec fn stuck() -> SwiftStop {
    SwiftStop::Fault(SwiftFault { message: Seq::empty(), line: 0 })
}

/// `to` lies behind `from`, inside the source.
pub open spec fn ahead(b: Seq<u8>, from: Cur, to: Cur) -> bool {
    0 <= from.pos < to.pos <= b.len()
}

/// The place after a byte, if it stands there, and the blanks behind it.
pub open spec fn skip_if(b: Seq<u8>, c: Cur, x: u8) -> Cur {
    if at(b, c) == Some(x) {
        next(b, c)
    } else {
        c
    }
}

/// The end of a number: digits and points, but no point that another one follows.
pub open spec fn number_end(b: Seq<u8>, c: Cur) -> Cur
    decreases b.len() - c.pos,
{
    if 0 <= c.pos < b.len() && (digit(b[c.pos]) || b[c.pos] == 46 && !(c.pos + 1 < b.len() && b[c.pos + 1] == 46)) {
        number_end(b, next(b, c))
    } else {
        c
    }
}

/// The colour that a name stands for.
pub open spec fn color_named(name: Seq<char>) -> Option<u32> {
    if name == "white"@ {
        Some(0xFFFF_FFFF)
    } else if name == "black"@ {
        Some(0x0000_00FF)
    } else if name == "blue"@ {
        Some(0x0000_FFFF)
    } else if name == "red"@ {
        Some(0xFF00_00FF)
    } else if name == "green"@ {
        Some(0x00FF_00FF)
    } else if name == "clear"@ {
        Some(0x0000_0000)
    } else if name == "gray"@ || name == "grey"@ {
        Some(0x8888_88FF)
    } else if name == "yellow"@ {
        Some(0xFFFF_00FF)
    } else if name == "orange"@ {
        Some(0xFF88_00FF)
    } else if name == "purple"@ {
        Some(0x8800_FFFF)
    } else {
        None
    }
}

/// The size of a text style in pixels, by its bits.
pub open spec fn font_size(role: Seq<char>) -> Option<u32> {
    if role == "largeTitle"@ {
        Some(0x4208_0000)
    } else if role == "title"@ || role == "title1"@ {
        Some(0x41E0_0000)
    } else if role == "title2"@ {
        Some(0x41B0_0000)
    } else if role == "title3"@ {
        Some(0x41A0_0000)
    } else if role == "headline"@ {
        Some(0x4188_0000)
    } else if role == "body"@ {
        Some(0x4180_0000)
    } else if role == "callout"@ {
        Some(0x4170_0000)
    } else if role == "subheadline"@ {
        Some(0x4160_0000)
    } else if role == "footnote"@ {
        Some(0x4150_0000)
    } else if role == "caption"@ || role == "caption2"@ {
        Some(0x4140_0000)
    } else {
        None
    }
}

/// The rest of `Color(red: .., green: .., blue: ..)` after its opening bracket, and the place behind it.
pub open spec fn rgb_at(b: Seq<u8>, c: Cur, red: Seq<char>, green: Seq<char>, blue: Seq<char>) -> Result<
    (SwiftTerm, Cur),
    SwiftStop,
>
    decreases b.len() - c.pos,
{
    let c0 = trivia_end(b, c);
    let c1 = run_end(b, c0, Class::Word);
    let key = between(b, c0, c1);
    let c2 = trivia_end(b, skip_if(b, trivia_end(b, c1), 58));
    let c3 = number_end(b, c2);
    let text = between(b, c2, c3);
    let c4 = skip_if(b, trivia_end(b, c3), 44);
    if at(b, c0) == Some(41u8) {
        Ok((SwiftTerm::Rgb(red, green, blue), next(b, c0)))
    } else if ahead(b, c, c4) {
        rgb_at(
            b,
            c4,
            if key == "red"@ {
                text
            } else {
                red
            },
            if key == "green"@ {
                text
            } else {
                green
            },
            if key == "blue"@ {
                text
            } else {
                blue
            },
        )
    } else {
        Err(SwiftStop::Endless)
    }
}

/// What follows the word `Color`, and the place behind it.
pub open spec fn color_at(b: Seq<u8>, c: Cur) -> Result<(SwiftTerm, Cur), SwiftStop> {
    let c0 = trivia_end(b, c);
    let from = if at(b, c0) == Some(46u8) {
        next(b, c0)
    } else {
        c0
    };
    let c1 = run_end(b, from, Class::Word);
    let name = between(b, from, c1);
    if at(b, c0) == Some(40u8) {
        rgb_at(b, next(b, c0), Seq::empty(), Seq::empty(), Seq::empty())
    } else if at(b, c0) == Some(46u8) && color_named(name) is Some {
        Ok((SwiftTerm::Color(color_named(name)->0), c1))
    } else {
        Ok((SwiftTerm::Ident(name), c1))
    }
}

/// The value that begins at a place, and the place behind it.
pub open spec fn value_at(b: Seq<u8>, c: Cur) -> Result<(SwiftTerm, Cur), SwiftStop> {
    let c0 = trivia_end(b, c);
    let d0 = next(b, c0);
    let d1 = run_end(b, d0, Class::Word);
    let name = between(b, d0, d1);
    match at(b, c0) {
        None => Err(fault("unexpected EOF in value"@, c0)),
        Some(x) => if x == 34 {
            match literal(b, d0, 34, false, Seq::empty()) {
                Ok((text, c1)) => Ok((SwiftTerm::Str(text), c1)),
                Err((Cut::InText, c1)) => Err(fault("unterminated string"@, c1)),
                Err((Cut::InEscape, c1)) => Err(fault("unterminated escape"@, c1)),
            }
        } else if x == 36 {
            Ok((SwiftTerm::Ident(name), d1))
        } else if x == 46 {
            if color_named(name) is Some {
                Ok((SwiftTerm::Color(color_named(name)->0), d1))
            } else if font_size(name) is Some {
                Ok((SwiftTerm::FontRole(font_size(name)->0), d1))
            } else {
                Ok((SwiftTerm::Ident(name), d1))
            }
        } else if digit(x) {
            let c1 = number_end(b, c0);
            let lo = between(b, c0, c1);
            if at(b, c1) == Some(46u8) && at(b, next(b, c1)) == Some(46u8) {
                let c2 = trivia_end(b, skip_if(b, run_end(b, c1, Class::Dot), 60));
                let c3 = number_end(b, c2);
                Ok((SwiftTerm::Range(lo, between(b, c2, c3)), c3))
            } else {
                Ok((SwiftTerm::Float(SwiftNumber::Text(lo)), c1))
            }
        } else {
            let c1 = run_end(b, c0, Class::Word);
            let word = between(b, c0, c1);
            if word == "true"@ {
                Ok((SwiftTerm::Bool(true), c1))
            } else if word == "false"@ {
                Ok((SwiftTerm::Bool(false), c1))
            } else if word == "Color"@ {
                color_at(b, c1)
            } else {
                Ok((SwiftTerm::Ident(word), c1))
            }
        },
    }
}

/// The rest of the arguments of a view after `props`, and the place behind them.
pub open spec fn args_at(b: Seq<u8>, c: Cur, props: Seq<(Seq<char>, SwiftTerm)>) -> Result<
    (Seq<(Seq<char>, SwiftTerm)>, Cur),
    SwiftStop,
>
    decreases b.len() - c.pos,
{
    let c0 = trivia_end(b, c);
    let c1 = run_end(b, c0, Class::Word);
    let key = between(b, c0, c1);
    let c2 = trivia_end(b, c1);
    let keyed = at(b, c0) matches Some(x) && letter(x);
    if at(b, c0) == Some(41u8) {
        Ok((props, next(b, c0)))
    } else {
        let read = if keyed && at(b, c2) == Some(58u8) {
            match value_at(b, trivia_end(b, next(b, c2))) {
                Err(e) => Err(e),
                Ok((v, c3)) => Ok((props.push((key, v)), c3)),
            }
        } else if keyed {
            Ok((props, c2))
        } else {
            Ok((props, c0))
        };
        match read {
            Err(e) => Err(e),
            Ok((props1, c3)) => {
                let c4 = trivia_end(b, c3);
                if at(b, c4) == Some(44u8) {
                    if ahead(b, c, next(b, c4)) {
                        args_at(b, next(b, c4), props1)
                    } else {
                        Err(stuck())
                    }
                } else if at(b, c4) == Some(41u8) {
                    Ok((props1, next(b, c4)))
                } else {
                    Ok((props1, c4))
                }
            },
        }
    }
}

/// The rest of the arguments of `.frame(` after `props`, and the place of its closing bracket.
pub open spec fn frame_at(b: Seq<u8>, c: Cur, props: Seq<(Seq<char>, SwiftTerm)>) -> Result<
    (Seq<(Seq<char>, SwiftTerm)>, Cur),
    SwiftStop,
>
    decreases b.len() - c.pos,
{
    let c0 = trivia_end(b, c);
    let c1 = run_end(b, c0, Class::Word);
    let key = between(b, c0, c1);
    let c2 = trivia_end(b, skip_if(b, trivia_end(b, c1), 58));
    if at(b, c0) == Some(41u8) {
        Ok((props, c0))
    } else {
        match value_at(b, c2) {
            Err(e) => Err(e),
            Ok((v, c3)) => {
                let c4 = skip_if(b, trivia_end(b, c3), 44);
                if ahead(b, c, c4) {
                    frame_at(b, c4, framed(props, key, v))
                } else {
                    Err(SwiftStop::Endless)
                }
            },
        }
    }
}

/// The properties after one argument of `.frame(..)`.
pub open spec fn framed(props: Seq<(Seq<char>, SwiftTerm)>, key: Seq<char>, v: SwiftTerm) -> Seq<
    (Seq<char>, SwiftTerm),
> {
    if key == "width"@ || key == "minWidth"@ {
        props.push(("width"@, v))
    } else if key == "height"@ || key == "minHeight"@ {
        props.push(("height"@, v))
    } else if key == "maxWidth"@ || key == "maxHeight"@ {
        if v == SwiftTerm::Ident("infinity"@) {
            props.push(("grow"@, SwiftTerm::Float(SwiftNumber::One)))
        } else if key == "maxWidth"@ {
            props.push(("width"@, v))
        } else {
            props.push(("height"@, v))
        }
    } else {
        props
    }
}

/// The rest of the arguments of a clip shape after `props`, and the place behind them.
pub open spec fn clip_at(b: Seq<u8>, c: Cur, props: Seq<(Seq<char>, SwiftTerm)>) -> Result<
    (Seq<(Seq<char>, SwiftTerm)>, Cur),
    SwiftStop,
>
    decreases b.len() - c.pos,
{
    let c0 = trivia_end(b, c);
    let c1 = run_end(b, c0, Class::Word);
    let key = between(b, c0, c1);
    let c2 = trivia_end(b, skip_if(b, trivia_end(b, c1), 58));
    if at(b, c0) == Some(41u8) {
        Ok((props, next(b, c0)))
    } else if at(b, c0) is None {
        Ok((props, c0))
    } else {
        match value_at(b, c2) {
            Err(e) => Err(e),
            Ok((v, c3)) => {
                let c4 = skip_if(b, trivia_end(b, c3), 44);
                if ahead(b, c, c4) {
                    clip_at(
                        b,
                        c4,
                        if key == "cornerRadius"@ && v is Float {
                            props.push(("corner_radius"@, v))
                        } else {
                            props
                        },
                    )
                } else {
                    Err(SwiftStop::Endless)
                }
            },
        }
    }
}

/// The place behind the bracket that closes a modifier.
pub open spec fn modifier_end(b: Seq<u8>, c: Cur) -> Cur
    decreases b.len() - c.pos,
{
    let c0 = trivia_end(b, c);
    if at(b, c0) == Some(41u8) {
        next(b, c0)
    } else if at(b, c0) is None || !ahead(b, c, next(b, c0)) {
        c0
    } else {
        modifier_end(b, next(b, c0))
    }
}

/// The view with one more property.
pub open spec fn with_prop(v: SwiftNode, key: Seq<char>, t: SwiftTerm) -> SwiftNode {
    SwiftNode { props: v.props.push((key, t)), ..v }
}

/// The view after a modifier whose arguments begin at a place, and a place among them or behind.
#[verifier::opaque]
pub open spec fn modified(b: Seq<u8>, c: Cur, name: Seq<char>, line: int, v: SwiftNode) -> Result<
    (SwiftNode, Cur),
    SwiftStop,
> {
    if name == "frame"@ {
        match frame_at(b, c, v.props) {
            Err(e) => Err(e),
            Ok((props, c1)) => Ok((SwiftNode { props, ..v }, c1)),
        }
    } else if name == "clipShape"@ {
        let c1 = run_end(b, c, Class::Word);
        let c2 = trivia_end(b, c1);
        if between(b, c, c1) == "RoundedRectangle"@ && at(b, c2) == Some(40u8) {
            match clip_at(b, next(b, c2), v.props) {
                Err(e) => Err(e),
                Ok((props, c3)) => Ok((SwiftNode { props, ..v }, c3)),
            }
        } else {
            Ok((v, c2))
        }
    } else if name == "bold"@ {
        Ok((with_prop(v, "weight"@, SwiftTerm::Ident("bold"@)), c))
    } else if name == "italic"@ {
        Ok((with_prop(v, "italic"@, SwiftTerm::Bool(true)), c))
    } else if name == "hidden"@ {
        Ok((with_prop(v, "hidden"@, SwiftTerm::Bool(true)), c))
    } else if name == "onTapGesture"@ || name == "onLongPressGesture"@ {
        Ok((SwiftNode { callbacks: v.callbacks.push("click"@), ..v }, c))
    } else if takes_value(name) {
        match value_at(b, c) {
            Err(e) => Err(e),
            Ok((t, c1)) => Ok((with_value(v, name, t), c1)),
        }
    } else {
        Ok((noted(v, name, line), c))
    }
}

/// Modifiers that take one value.
pub open spec fn takes_value(name: Seq<char>) -> bool {
    name == "font"@ || name == "foregroundColor"@ || name == "foregroundStyle"@ || name == "background"@ || name
        == "fill"@ || name == "padding"@ || name == "cornerRadius"@ || name == "opacity"@ || name
        == "fontWeight"@
}

/// The view after a modifier that takes one value.
pub open spec fn with_value(v: SwiftNode, name: Seq<char>, t: SwiftTerm) -> SwiftNode {
    if name == "font"@ {
        match t {
            SwiftTerm::FontRole(px) => with_prop(v, "size"@, SwiftTerm::Float(SwiftNumber::Single(px))),
            _ => v,
        }
    } else if name == "foregroundColor"@ || name == "foregroundStyle"@ {
        with_prop(v, "color"@, t)
    } else if name == "background"@ || name == "fill"@ {
        with_prop(v, "background"@, t)
    } else if name == "cornerRadius"@ {
        if t is Float {
            with_prop(v, "corner_radius"@, t)
        } else {
            v
        }
    } else if name == "fontWeight"@ {
        match t {
            SwiftTerm::Ident(w) => with_prop(v, "weight"@, t),
            _ => with_prop(v, "weight"@, SwiftTerm::Ident("regular"@)),
        }
    } else {
        with_prop(v, name, t)
    }
}

/// The view with a modifier noted as left out.
pub open spec fn noted(v: SwiftNode, name: Seq<char>, line: int) -> SwiftNode {
    SwiftNode {
        unsupported: v.unsupported.push(Omission { line, text: "modifier ."@ + name }),
        ..v
    }
}

/// The view after the modifiers that begin at a place, and the place behind them.
pub open spec fn modifiers_at(b: Seq<u8>, c: Cur, v: SwiftNode) -> Result<(SwiftNode, Cur), SwiftStop>
    decreases b.len() - c.pos,
{
    let c0 = trivia_end(b, c);
    let c1 = run_end(b, next(b, c0), Class::Word);
    let name = between(b, next(b, c0), c1);
    let c2 = trivia_end(b, c1);
    if at(b, c0) != Some(46u8) {
        Ok((v, c0))
    } else if at(b, c2) != Some(40u8) {
        let v1 = if name == "isHidden"@ {
            with_prop(v, "hidden"@, SwiftTerm::Bool(true))
        } else if name == ""@ {
            v
        } else {
            noted(v, name, line_at(c0))
        };
        if ahead(b, c, c2) {
            modifiers_at(b, c2, v1)
        } else {
            Err(stuck())
        }
    } else {
        match modified(b, trivia_end(b, next(b, c2)), name, line_at(c0), v) {
            Err(e) => Err(e),
            Ok((v1, c3)) => {
                let c4 = modifier_end(b, c3);
                if ahead(b, c, c4) {
                    modifiers_at(b, c4, v1)
                } else {
                    Err(stuck())
                }
            },
        }
    }
}

/// The view with its label and arguments, and the place behind them.
pub open spec fn head_at(b: Seq<u8>, c: Cur, kind: Seq<char>) -> Result<(SwiftNode, Cur), SwiftStop> {
    let c0 = trivia_end(b, c);
    let c1 = trivia_end(b, next(b, c0));
    let v = bare_view(kind);
    if at(b, c0) != Some(40u8) {
        Ok((v, c0))
    } else {
        let labelled = if at(b, c1) == Some(34u8) {
            match literal(b, next(b, c1), 34, false, Seq::empty()) {
                Ok((text, c2)) => {
                    let c3 = trivia_end(b, c2);
                    Ok(
                        (
                            SwiftNode { label: Some(text), ..v },
                            if at(b, c3) == Some(44u8) {
                                trivia_end(b, next(b, c3))
                            } else {
                                c3
                            },
                        ),
                    )
                },
                Err((Cut::InText, c2)) => Err(fault("unterminated string"@, c2)),
                Err((Cut::InEscape, c2)) => Err(fault("unterminated escape"@, c2)),
            }
        } else {
            Ok((v, c1))
        };
        match labelled {
            Err(e) => Err(e),
            Ok((v1, c2)) => match args_at(b, c2, Seq::empty()) {
                Err(e) => Err(e),
                Ok((props, c3)) => Ok((SwiftNode { props, ..v1 }, trivia_end(b, c3))),
            },
        }
    }
}

/// The view of a kind whose arguments, block and modifiers begin at a place, and the place behind
/// it. A block whose first byte is a capital letter holds child views; any other is an action.
pub open spec fn view_at(b: Seq<u8>, c: Cur, kind: Seq<char>) -> Result<(SwiftNode, Cur), SwiftStop>
    decreases b.len() - c.pos, 0int,
{
    match head_at(b, c, kind) {
        Err(e) => Err(e),
        Ok((v, c0)) => {
            let c1 = next(b, c0);
            let c2 = trivia_end(b, c1);
            if at(b, c0) != Some(123u8) {
                modifiers_at(b, c0, v)
            } else if !(at(b, c2) matches Some(x) && upper(x)) {
                modifiers_at(
                    b,
                    trivia_end(b, closing(b, c2, 123, 125, 1)),
                    SwiftNode { callbacks: v.callbacks.push("click"@), ..v },
                )
            } else if ahead(b, c, c1) {
                match children_at(b, c1, Seq::empty()) {
                    Err(e) => Err(e),
                    Ok((children, c3)) => modifiers_at(b, c3, SwiftNode { children, ..v }),
                }
            } else {
                Err(stuck())
            }
        },
    }
}

/// The rest of the child views of a block after `acc`, and the place behind its closing brace.
pub open spec fn children_at(b: Seq<u8>, c: Cur, acc: Seq<SwiftNode>) -> Result<
    (Seq<SwiftNode>, Cur),
    SwiftStop,
>
    decreases b.len() - c.pos, 1int,
{
    let c0 = trivia_end(b, c);
    let c1 = run_end(b, c0, Class::Word);
    match at(b, c0) {
        None => Ok((acc, c0)),
        Some(x) => if x == 125 {
            Ok((acc, next(b, c0)))
        } else if upper(x) {
            if ahead(b, c, c1) {
                match view_at(b, c1, between(b, c0, c1)) {
                    Err(e) => Err(e),
                    Ok((v, c2)) => if ahead(b, c, c2) {
                        children_at(b, c2, acc.push(v))
                    } else {
                        Err(stuck())
                    },
                }
            } else {
                Err(stuck())
            }
        } else if ahead(b, c, next(b, c0)) {
            children_at(b, next(b, c0), acc)
        } else {
            Err(stuck())
        },
    }
}

/// The rest of the views of a source after `acc`.
pub open spec fn views_at(b: Seq<u8>, c: Cur, acc: Seq<SwiftNode>) -> Result<Seq<SwiftNode>, SwiftStop>
    decreases b.len() - c.pos,
{
    let c0 = trivia_end(b, c);
    let c1 = run_end(b, c0, Class::Word);
    match at(b, c0) {
        None => Ok(acc),
        Some(x) => if upper(x) {
            match view_at(b, c1, between(b, c0, c1)) {
                Err(e) => Err(e),
                Ok((v, c2)) => if ahead(b, c, c2) {
                    views_at(b, c2, acc.push(v))
                } else {
                    Err(stuck())
                },
            }
        } else if ahead(b, c, next(b, c0)) {
            views_at(b, next(b, c0), acc)
        } else {
            Err(stuck())
        },
    }
}

/// The views of a source, or why they cannot be read.
pub open spec fn views_of(b: Seq<u8>) -> Result<Seq<SwiftNode>, SwiftStop> {
    views_at(b, start(), Seq::empty())
}

/// Why reading stopped.
enum Halt {
    /// The source is wrong.
    Fault(SwiftUIImportError),
    /// The reader would wait forever.
    Endless,
}

spec fn stop_of(h: Halt) -> SwiftStop {
    match h {
        Halt::Fault(e) => SwiftStop::Fault(e@),
        Halt::Endless => SwiftStop::Endless,
    }
}

fn err(message: &str, line: usize) -> (r: Halt)
    ensures
        stop_of(r) == SwiftStop::Fault(SwiftFault { message: message@, line: line as int }),
{
    Halt::Fault(SwiftUIImportError { message: copy(message), line })
}

fn named_dot_color(name: &str) -> (r: Option<u32>)
    ensures
        r == color_named(name@),
{
    if same(name, "white") {
        Some(0xFFFF_FFFF)
    } else if same(name, "black") {
        Some(0x0000_00FF)
    } else if same(name, "blue") {
        Some(0x0000_FFFF)
    } else if same(name, "red") {
        Some(0xFF00_00FF)
    } else if same(name, "green") {
        Some(0x00FF_00FF)
    } else if same(name, "clear") {
        Some(0x0000_0000)
    } else if same(name, "gray") || same(name, "grey") {
        Some(0x8888_88FF)
    } else if same(name, "yellow") {
        Some(0xFFFF_00FF)
    } else if same(name, "orange") {
        Some(0xFF88_00FF)
    } else if same(name, "purple") {
        Some(0x8800_FFFF)
    } else {
        None
    }
}

fn font_role_px(role: &str) -> (r: Option<u32>)
    ensures
        r == font_size(role@),
{
    if same(role, "largeTitle") {
        Some(0x4208_0000)
    } else if same(role, "title") || same(role, "title1") {
        Some(0x41E0_0000)
    } else if same(role, "title2") {
        Some(0x41B0_0000)
    } else if same(role, "title3") {
        Some(0x41A0_0000)
    } else if same(role, "headline") {
        Some(0x4188_0000)
    } else if same(role, "body") {
        Some(0x4180_0000)
    } else if same(role, "callout") {
        Some(0x4170_0000)
    } else if same(role, "subheadline") {
        Some(0x4160_0000)
    } else if same(role, "footnote") {
        Some(0x4150_0000)
    } else if same(role, "caption") || same(role, "caption2") {
        Some(0x4140_0000)
    } else {
        None
    }
}

/// Takes a byte if it stands here.
fn take_if(lex: &mut Scanner<'_>, x: u8) -> (r: bool)
    ensures
        final(lex).bytes() == old(lex).bytes(),
        final(lex).cur() == skip_if(old(lex).bytes(), old(lex).cur(), x),
        r == (at(old(lex).bytes(), old(lex).cur()) == Some(x)),
        old(lex).cur().pos <= final(lex).cur().pos,
{
    if lex.peek() == Some(x) {
        lex.advance();
        true
    } else {
        false
    }
}

/// Takes a number and gives it as it was written.
fn read_number(lex: &mut Scanner<'_>) -> (r: String)
    ensures
        final(lex).bytes() == old(lex).bytes(),
        final(lex).cur() == number_end(old(lex).bytes(), old(lex).cur()),
        r@ == between(old(lex).bytes(), old(lex).cur(), final(lex).cur()),
        0 <= old(lex).cur().pos <= final(lex).cur().pos <= old(lex).bytes().len(),
{
    let ghost b = lex.bytes();
    let ghost from = lex.cur();
    let ghost goal = number_end(b, from);
    let mut out = String::new();
    lex.bounds();
    loop
        invariant
            lex.bytes() == b,
            0 <= from.pos <= lex.cur().pos <= b.len(),
            number_end(b, lex.cur()) == goal,
            out@ == between(b, from, lex.cur()),
        ensures
            lex.bytes() == b,
            0 <= from.pos <= lex.cur().pos <= b.len(),
            lex.cur() == goal,
            out@ == between(b, from, lex.cur()),
        decreases b.len() - lex.cur().pos,
    {
        match lex.peek() {
            None => {
                break;
            },
            Some(x) => {
                let dotted = lex.peek_second() == Some(46u8);
                if is_class(Class::Digit, x) || (x == 46 && !dotted) {
                    lex.advance();
                    out.push(x as char);
                    assert(out@ =~= between(b, from, lex.cur()));
                } else {
                    break;
                }
            },
        }
    }
    out
}

/// Takes what follows the word `Color`.
fn parse_color_arg(lex: &mut Scanner<'_>) -> (r: Result<SwiftValue, Halt>)
    ensures
        final(lex).bytes() == old(lex).bytes(),
        match color_at(old(lex).bytes(), old(lex).cur()) {
            Ok((v, c)) => r is Ok && term_of(r->Ok_0) == v && final(lex).cur() == c,
            Err(e) => r is Err && stop_of(r->Err_0) == e,
        },
        old(lex).cur().pos <= final(lex).cur().pos,
{
    let ghost b = lex.bytes();
    let ghost start_cur = lex.cur();
    lex.skip_trivia();
    let first = lex.peek();
    if first == Some(40u8) {
        lex.advance();
        lex.bounds();
        let mut red = String::new();
        let mut green = String::new();
        let mut blue = String::new();
        let ghost goal = rgb_at(b, lex.cur(), Seq::empty(), Seq::empty(), Seq::empty());
        loop
            invariant
                lex.bytes() == b,
                b == old(lex).bytes(),
                0 <= start_cur.pos <= lex.cur().pos <= b.len(),
                rgb_at(b, lex.cur(), red@, green@, blue@) == goal,
                goal == color_at(old(lex).bytes(), old(lex).cur()),
                start_cur == old(lex).cur(),
            decreases b.len() - lex.cur().pos,
        {
            let before: usize = lex.place();
            lex.skip_trivia();
            if lex.peek() == Some(41u8) {
                lex.advance();
                return Ok(SwiftValue::Rgb(red, green, blue));
            }
            let key = lex.read_run(Class::Word);
            lex.skip_trivia();
            take_if(lex, 58);
            lex.skip_trivia();
            let text = read_number(lex);
            if same(key.as_str(), "red") {
                red = text.clone();
            }
            if same(key.as_str(), "green") {
                green = text.clone();
            }
            if same(key.as_str(), "blue") {
                blue = text.clone();
            }
            lex.skip_trivia();
            take_if(lex, 44);
            lex.bounds();
            if lex.place() <= before {
                return Err(Halt::Endless);
            }
        }
    }
    if first == Some(46u8) {
        lex.advance();
        let name = lex.read_run(Class::Word);
        match named_dot_color(name.as_str()) {
            Some(c) => Ok(SwiftValue::Color(c)),
            None => Ok(SwiftValue::Ident(name)),
        }
    } else {
        Ok(SwiftValue::Ident(lex.read_run(Class::Word)))
    }
}

/// Takes one value.
fn parse_value(lex: &mut Scanner<'_>) -> (r: Result<SwiftValue, Halt>)
    ensures
        final(lex).bytes() == old(lex).bytes(),
        match value_at(old(lex).bytes(), old(lex).cur()) {
            Ok((v, c)) => r is Ok && term_of(r->Ok_0) == v && final(lex).cur() == c,
            Err(e) => r is Err && stop_of(r->Err_0) == e,
        },
        old(lex).cur().pos <= final(lex).cur().pos,
{
    lex.skip_trivia();
    match lex.peek() {
        None => Err(err("unexpected EOF in value", lex.line())),
        Some(x) => {
            if x == 34 {
                lex.advance();
                match lex.read_literal(34, false) {
                    Ok(text) => Ok(SwiftValue::Str(text)),
                    Err(Cut::InText) => Err(err("unterminated string", lex.line())),
                    Err(Cut::InEscape) => Err(err("unterminated escape", lex.line())),
                }
            } else if x == 36 {
                lex.advance();
                Ok(SwiftValue::Ident(lex.read_run(Class::Word)))
            } else if x == 46 {
                lex.advance();
                let name = lex.read_run(Class::Word);
                match named_dot_color(name.as_str()) {
                    Some(c) => Ok(SwiftValue::Color(c)),
                    None => match font_role_px(name.as_str()) {
                        Some(px) => Ok(SwiftValue::FontRole(px)),
                        None => Ok(SwiftValue::Ident(name)),
                    },
                }
            } else if is_class(Class::Digit, x) {
                let lo = read_number(lex);
                let first = lex.peek() == Some(46u8);
                let second = lex.peek_second() == Some(46u8);
                if first && second {
                    lex.skip_run(Class::Dot);
                    take_if(lex, 60);
                    lex.skip_trivia();
                    let hi = read_number(lex);
                    Ok(SwiftValue::Range(lo, hi))
                } else {
                    Ok(SwiftValue::Float(Num::Text(lo)))
                }
            } else {
                let word = lex.read_run(Class::Word);
                if same(word.as_str(), "true") {
                    Ok(SwiftValue::Bool(true))
                } else if same(word.as_str(), "false") {
                    Ok(SwiftValue::Bool(false))
                } else if same(word.as_str(), "Color") {
                    parse_color_arg(lex)
                } else {
                    Ok(SwiftValue::Ident(word))
                }
            }
        },
    }
}

fn push_prop(props: &mut Vec<(String, SwiftValue)>, key: &str, v: SwiftValue)
    ensures
        terms_of(final(props)@) == terms_of(old(props)@).push((key@, term_of(v))),
{
    let ghost before = terms_of(props@);
    props.push((copy(key), v));
    assert(terms_of(props@) =~= before.push((key@, term_of(v))));
}

/// Takes the arguments of a view up to and with the closing bracket.
fn parse_args(lex: &mut Scanner<'_>) -> (r: Result<Vec<(String, SwiftValue)>, Halt>)
    ensures
        final(lex).bytes() == old(lex).bytes(),
        match args_at(old(lex).bytes(), old(lex).cur(), Seq::empty()) {
            Ok((props, c)) => r is Ok && terms_of(r->Ok_0@) == props && final(lex).cur() == c,
            Err(e) => r is Err && stop_of(r->Err_0) == e,
        },
        old(lex).cur().pos <= final(lex).cur().pos,
{
    let ghost b = lex.bytes();
    let ghost from = lex.cur();
    let ghost goal = args_at(b, from, Seq::empty());
    let mut props: Vec<(String, SwiftValue)> = Vec::new();
    assert(terms_of(props@) =~= Seq::<(Seq<char>, SwiftTerm)>::empty());
    lex.bounds();
    loop
        invariant
            lex.bytes() == b,
            b == old(lex).bytes(),
            from == old(lex).cur(),
            0 <= from.pos <= lex.cur().pos <= b.len(),
            args_at(b, lex.cur(), terms_of(props@)) == goal,
            goal == args_at(b, from, Seq::empty()),
        decreases b.len() - lex.cur().pos,
    {
        lex.skip_trivia();
        let first = lex.peek();
        if first == Some(41u8) {
            lex.advance();
            return Ok(props);
        }
        let keyed = match first {
            Some(x) => (65 <= x && x <= 90) || (97 <= x && x <= 122),
            None => false,
        };
        if keyed {
            let key = lex.read_run(Class::Word);
            lex.skip_trivia();
            if take_if(lex, 58) {
                lex.skip_trivia();
                lex.bounds();
                match parse_value(lex) {
                    Ok(v) => {
                        push_prop(&mut props, key.as_str(), v);
                    },
                    Err(e) => {
                        return Err(e);
                    },
                }
            }
        }
        lex.skip_trivia();
        let mark = lex.peek();
        if mark == Some(44u8) {
            lex.advance();
            lex.bounds();
        } else if mark == Some(41u8) {
            lex.advance();
            return Ok(props);
        } else {
            return Ok(props);
        }
    }
}

fn is_infinity(v: &SwiftValue) -> (r: bool)
    ensures
        r == (term_of(*v) == SwiftTerm::Ident("infinity"@)),
{
    match v {
        SwiftValue::Ident(s) => same(s.as_str(), "infinity"),
        _ => false,
    }
}

fn is_float(v: &SwiftValue) -> (r: bool)
    ensures
        r == (term_of(*v) is Float),
{
    match v {
        SwiftValue::Float(_) => true,
        _ => false,
    }
}

/// Takes the arguments of `.frame(` up to its closing bracket.
fn parse_frame(lex: &mut Scanner<'_>, props: &mut Vec<(String, SwiftValue)>) -> (r: Result<
    (),
    Halt,
>)
    ensures
        final(lex).bytes() == old(lex).bytes(),
        match frame_at(old(lex).bytes(), old(lex).cur(), terms_of(old(props)@)) {
            Ok((p, c)) => r is Ok && terms_of(final(props)@) == p && final(lex).cur() == c,
            Err(e) => r is Err && stop_of(r->Err_0) == e,
        },
        old(lex).cur().pos <= final(lex).cur().pos,
{
    let ghost b = lex.bytes();
    let ghost from = lex.cur();
    let ghost goal = frame_at(b, from, terms_of(props@));
    lex.bounds();
    loop
        invariant
            lex.bytes() == b,
            b == old(lex).bytes(),
            from == old(lex).cur(),
            0 <= from.pos <= lex.cur().pos <= b.len(),
            frame_at(b, lex.cur(), terms_of(props@)) == goal,
            goal == frame_at(b, from, terms_of(old(props)@)),
        decreases b.len() - lex.cur().pos,
    {
        let before: usize = lex.place();
        lex.skip_trivia();
        if lex.peek() == Some(41u8) {
            return Ok(());
        }
        let key = lex.read_run(Class::Word);
        lex.skip_trivia();
        take_if(lex, 58);
        lex.skip_trivia();
        let v = match parse_value(lex) {
            Ok(v) => v,
            Err(e) => {
                return Err(e);
            },
        };
        let k = key.as_str();
        if same(k, "width") || same(k, "minWidth") {
            push_prop(props, "width", v);
        } else if same(k, "height") || same(k, "minHeight") {
            push_prop(props, "height", v);
        } else if same(k, "maxWidth") || same(k, "maxHeight") {
            if is_infinity(&v) {
                push_prop(props, "grow", SwiftValue::Float(Num::One));
            } else if same(k, "maxWidth") {
                push_prop(props, "width", v);
            } else {
                push_prop(props, "height", v);
            }
        }
        lex.skip_trivia();
        take_if(lex, 44);
        lex.bounds();
        if lex.place() <= before {
            return Err(Halt::Endless);
        }
    }
}

/// Takes the arguments of a clip shape up to and with its closing bracket.
fn parse_clip(lex: &mut Scanner<'_>, props: &mut Vec<(String, SwiftValue)>) -> (r: Result<
    (),
    Halt,
>)
    ensures
        final(lex).bytes() == old(lex).bytes(),
        match clip_at(old(lex).bytes(), old(lex).cur(), terms_of(old(props)@)) {
            Ok((p, c)) => r is Ok && terms_of(final(props)@) == p && final(lex).cur() == c,
            Err(e) => r is Err && stop_of(r->Err_0) == e,
        },
        old(lex).cur().pos <= final(lex).cur().pos,
{
    let ghost b = lex.bytes();
    let ghost from = lex.cur();
    let ghost goal = clip_at(b, from, terms_of(props@));
    lex.bounds();
    loop
        invariant
            lex.bytes() == b,
            b == old(lex).bytes(),
            from == old(lex).cur(),
            0 <= from.pos <= lex.cur().pos <= b.len(),
            clip_at(b, lex.cur(), terms_of(props@)) == goal,
            goal == clip_at(b, from, terms_of(old(props)@)),
        decreases b.len() - lex.cur().pos,
    {
        let before: usize = lex.place();
        lex.skip_trivia();
        let first = lex.peek();
        if first == Some(41u8) {
            lex.advance();
            return Ok(());
        }
        if first.is_none() {
            return Ok(());
        }
        let key = lex.read_run(Class::Word);
        lex.skip_trivia();
        take_if(lex, 58);
        lex.skip_trivia();
        let v = match parse_value(lex) {
            Ok(v) => v,
            Err(e) => {
                return Err(e);
            },
        };
        if same(key.as_str(), "cornerRadius") && is_float(&v) {
            push_prop(props, "corner_radius", v);
        }
        lex.skip_trivia();
        take_if(lex, 44);
        lex.bounds();
        if lex.place() <= before {
            return Err(Halt::Endless);
        }
    }
}

/// Takes the rest of a modifier up to and with its closing bracket.
fn skip_modifier(lex: &mut Scanner<'_>)
    ensures
        final(lex).bytes() == old(lex).bytes(),
        final(lex).cur() == modifier_end(old(lex).bytes(), old(lex).cur()),
        old(lex).cur().pos <= final(lex).cur().pos,
{
    let ghost b = lex.bytes();
    let ghost from = lex.cur();
    let ghost goal = modifier_end(b, from);
    lex.bounds();
    loop
        invariant_except_break
            lex.bytes() == b,
            0 <= from.pos <= lex.cur().pos <= b.len(),
            modifier_end(b, lex.cur()) == goal,
        ensures
            lex.bytes() == b,
            lex.cur() == goal,
            from.pos <= lex.cur().pos,
        decreases b.len() - lex.cur().pos,
    {
        lex.skip_trivia();
        let first = lex.peek();
        if first == Some(41u8) {
            lex.advance();
            break;
        }
        if first.is_none() {
            break;
        }
        lex.advance();
        lex.bounds();
    }
}

impl SwiftView {
    fn push_callback(&mut self, event: &str)
        ensures
            node_of(*final(self)) == (SwiftNode {
                callbacks: node_of(*old(self)).callbacks.push(event@),
                ..node_of(*old(self))
            }),
    {
        let ghost before = texts_of(self.callbacks@);
        self.callbacks.push(copy(event));
        assert(texts_of(self.callbacks@) =~= before.push(event@));
    }

    fn note(&mut self, name: &str, line: usize)
        ensures
            node_of(*final(self)) == noted(node_of(*old(self)), name@, line as int),
    {
        let ghost before = omissions(self.unsupported@);
        let u = Unsupported { line, text: join("modifier .", name) };
        let ghost model = u@;
        self.unsupported.push(u);
        assert(omissions(self.unsupported@) =~= before.push(model));
    }

    fn push(&mut self, key: &str, v: SwiftValue)
        ensures
            node_of(*final(self)) == with_prop(node_of(*old(self)), key@, term_of(v)),
    {
        push_prop(&mut self.props, key, v);
    }

    fn push_value(&mut self, name: &str, v: SwiftValue)
        ensures
            takes_value(name@) ==> node_of(*final(self)) == with_value(
                node_of(*old(self)),
                name@,
                term_of(v),
            ),
    {
        if same(name, "font") {
            match v {
                SwiftValue::FontRole(px) => {
                    self.push("size", SwiftValue::Float(Num::Single(px)));
                },
                _ => {},
            }
        } else if same(name, "foregroundColor") || same(name, "foregroundStyle") {
            self.push("color", v);
        } else if same(name, "background") || same(name, "fill") {
            self.push("background", v);
        } else if same(name, "cornerRadius") {
            if is_float(&v) {
                self.push("corner_radius", v);
            }
        } else if same(name, "fontWeight") {
            match v {
                SwiftValue::Ident(w) => {
                    self.push("weight", SwiftValue::Ident(w));
                },
                _ => {
                    self.push("weight", SwiftValue::Ident(copy("regular")));
                },
            }
        } else {
            self.push(name, v);
        }
    }
}

fn has_value(name: &str) -> (r: bool)
    ensures
        r == takes_value(name@),
{
    same(name, "font") || same(name, "foregroundColor") || same(name, "foregroundStyle") || same(
        name,
        "background",
    ) || same(name, "fill") || same(name, "padding") || same(name, "cornerRadius") || same(name, "opacity")
        || same(name, "fontWeight")
}

/// Takes the arguments of one modifier and puts it on the view.
fn apply_modifier(lex: &mut Scanner<'_>, view: &mut SwiftView, name: &str, line: usize) -> (r: Result<
    (),
    Halt,
>)
    ensures
        final(lex).bytes() == old(lex).bytes(),
        match modified(old(lex).bytes(), old(lex).cur(), name@, line as int, node_of(*old(view))) {
            Ok((v, c)) => r is Ok && node_of(*final(view)) == v && final(lex).cur() == c,
            Err(e) => r is Err && stop_of(r->Err_0) == e,
        },
        old(lex).cur().pos <= final(lex).cur().pos,
{
    reveal(modified);
    if same(name, "frame") {
        parse_frame(lex, &mut view.props)
    } else if same(name, "clipShape") {
        let shape = lex.read_run(Class::Word);
        lex.skip_trivia();
        if same(shape.as_str(), "RoundedRectangle") && lex.peek() == Some(40u8) {
            lex.advance();
            parse_clip(lex, &mut view.props)
        } else {
            Ok(())
        }
    } else if same(name, "bold") {
        view.push("weight", SwiftValue::Ident(copy("bold")));
        Ok(())
    } else if same(name, "italic") {
        view.push("italic", SwiftValue::Bool(true));
        Ok(())
    } else if same(name, "hidden") {
        view.push("hidden", SwiftValue::Bool(true));
        Ok(())
    } else if same(name, "onTapGesture") || same(name, "onLongPressGesture") {
        view.push_callback("click");
        Ok(())
    } else if has_value(name) {
        match parse_value(lex) {
            Ok(v) => {
                view.push_value(name, v);
                Ok(())
            },
            Err(e) => Err(e),
        }
    } else {
        view.note(name, line);
        Ok(())
    }
}

/// Takes the modifiers that begin here and puts them on the view.
fn apply_modifiers(lex: &mut Scanner<'_>, view: SwiftView) -> (r: Result<SwiftView, Halt>)
    ensures
        final(lex).bytes() == old(lex).bytes(),
        match modifiers_at(old(lex).bytes(), old(lex).cur(), node_of(view)) {
            Ok((v, c)) => r is Ok && node_of(r->Ok_0) == v && final(lex).cur() == c,
            Err(e) => r is Err && stop_of(r->Err_0) == e,
        },
        old(lex).cur().pos <= final(lex).cur().pos,
        r is Ok ==> node_of(r->Ok_0).children == node_of(view).children,
{
    let ghost b = lex.bytes();
    let ghost from = lex.cur();
    let ghost start_view = node_of(view);
    let ghost goal = modifiers_at(b, from, start_view);
    let ghost children = node_of(view).children;
    let mut out = view;
    lex.bounds();
    loop
        invariant
            lex.bytes() == b,
            b == old(lex).bytes(),
            from == old(lex).cur(),
            0 <= from.pos <= lex.cur().pos <= b.len(),
            modifiers_at(b, lex.cur(), node_of(out)) == goal,
            goal == modifiers_at(b, from, start_view),
            start_view == node_of(view),
            children == node_of(view).children,
            node_of(out).children == children,
        decreases b.len() - lex.cur().pos,
    {
        lex.skip_trivia();
        if lex.peek() != Some(46u8) {
            return Ok(out);
        }
        let line: usize = lex.line();
        lex.advance();
        let name = lex.read_run(Class::Word);
        lex.skip_trivia();
        if lex.peek() != Some(40u8) {
            if same(name.as_str(), "isHidden") {
                out.push("hidden", SwiftValue::Bool(true));
            } else if !same(name.as_str(), "") {
                out.note(name.as_str(), line);
            }
            lex.bounds();
            continue;
        }
        lex.advance();
        lex.skip_trivia();
        lex.bounds();
        proof {
            lemma_modified_children(b, lex.cur(), name@, line as int, node_of(out));
        }
        match apply_modifier(lex, &mut out, name.as_str(), line) {
            Ok(_) => {},
            Err(e) => {
                return Err(e);
            },
        }
        skip_modifier(lex);
        lex.bounds();
    }
}

proof fn lemma_modified_children(b: Seq<u8>, c: Cur, name: Seq<char>, line: int, v: SwiftNode)
    ensures
        modified(b, c, name, line, v) matches Ok((w, _)) ==> w.children == v.children,
{
    reveal(modified);
}

/// How many views a view is, with its children.
pub open spec fn view_count(v: SwiftNode) -> nat
    decreases v,
{
    1 + view_counts(v.children)
}

/// How many views a list of views is, with their children.
pub open spec fn view_counts(s: Seq<SwiftNode>) -> nat
    decreases s,
{
    if s.len() == 0 {
        0
    } else {
        view_counts(s.drop_last()) + view_count(s.last())
    }
}

fn bare(kind: String) -> (r: SwiftView)
    ensures
        node_of(r) == bare_view(kind@),
{
    let r = SwiftView {
        kind,
        label: None,
        props: Vec::new(),
        callbacks: Vec::new(),
        children: Vec::new(),
        unsupported: Vec::new(),
    };
    proof {
        lemma_node_of(r);
        assert(node_of(r).children =~= Seq::<SwiftNode>::empty());
        assert(node_of(r).props =~= Seq::<(Seq<char>, SwiftTerm)>::empty());
        assert(node_of(r).callbacks =~= Seq::<Seq<char>>::empty());
        assert(node_of(r).unsupported =~= Seq::<Omission>::empty());
    }
    r
}

/// Takes the label and the arguments of a view.
fn parse_head(lex: &mut Scanner<'_>, kind: String) -> (r: Result<SwiftView, Halt>)
    ensures
        final(lex).bytes() == old(lex).bytes(),
        match head_at(old(lex).bytes(), old(lex).cur(), kind@) {
            Ok((v, c)) => r is Ok && node_of(r->Ok_0) == v && final(lex).cur() == c,
            Err(e) => r is Err && stop_of(r->Err_0) == e,
        },
        old(lex).cur().pos <= final(lex).cur().pos,
        r is Ok ==> node_of(r->Ok_0).children.len() == 0,
{
    let mut view = bare(kind);
    lex.skip_trivia();
    if lex.peek() != Some(40u8) {
        return Ok(view);
    }
    lex.advance();
    lex.skip_trivia();
    if lex.peek() == Some(34u8) {
        lex.advance();
        match lex.read_literal(34, false) {
            Ok(text) => {
                view.label = Some(text);
            },
            Err(Cut::InText) => {
                return Err(err("unterminated string", lex.line()));
            },
            Err(Cut::InEscape) => {
                return Err(err("unterminated escape", lex.line()));
            },
        }
        lex.skip_trivia();
        if take_if(lex, 44) {
            lex.skip_trivia();
        }
    }
    match parse_args(lex) {
        Ok(props) => {
            view.props = props;
        },
        Err(e) => {
            return Err(e);
        },
    }
    lex.skip_trivia();
    Ok(view)
}

fn is_upper(x: Option<u8>) -> (r: bool)
    ensures
        r == (x matches Some(y) && upper(y)),
{
    match x {
        Some(y) => 65 <= y && y <= 90,
        None => false,
    }
}

/// Takes a view after its kind: arguments, block and modifiers.
fn parse_view_body(lex: &mut Scanner<'_>, kind: String) -> (r: Result<SwiftView, Halt>)
    ensures
        final(lex).bytes() == old(lex).bytes(),
        match view_at(old(lex).bytes(), old(lex).cur(), kind@) {
            Ok((v, c)) => r is Ok && node_of(r->Ok_0) == v && final(lex).cur() == c,
            Err(e) => r is Err && stop_of(r->Err_0) == e,
        },
        old(lex).cur().pos <= final(lex).cur().pos,
        r is Ok ==> view_count(node_of(r->Ok_0)) <= 1 + final(lex).cur().pos - old(lex).cur().pos,
    decreases old(lex).bytes().len() - old(lex).cur().pos, 0int,
{
    let ghost b = lex.bytes();
    let ghost from = lex.cur();
    lex.bounds();
    let mut view = match parse_head(lex, kind) {
        Ok(view) => view,
        Err(e) => {
            return Err(e);
        },
    };
    let ghost head = node_of(view);
    proof {
        assert(view_counts(head.children) == 0);
    }
    if lex.peek() == Some(123u8) {
        lex.advance();
        lex.bounds();
        let block = lex.mark();
        lex.skip_trivia();
        if !is_upper(lex.peek()) {
            view.push_callback("click");
            lex.skip_closing(123, 125);
            lex.skip_trivia();
            return apply_modifiers(lex, view);
        }
        lex.rewind(&block);
        let children = match parse_children(lex) {
            Ok(children) => children,
            Err(e) => {
                return Err(e);
            },
        };
        view.children = children;
        proof {
            lemma_node_of(view);
            assert(node_of(view) =~= SwiftNode { children: nodes_of(view.children@), ..head });
        }
    }
    apply_modifiers(lex, view)
}

/// Takes the child views of a block after its opening brace.
fn parse_children(lex: &mut Scanner<'_>) -> (r: Result<Vec<SwiftView>, Halt>)
    ensures
        final(lex).bytes() == old(lex).bytes(),
        match children_at(old(lex).bytes(), old(lex).cur(), Seq::empty()) {
            Ok((children, c)) => r is Ok && nodes_of(r->Ok_0@) == children && final(lex).cur() == c,
            Err(e) => r is Err && stop_of(r->Err_0) == e,
        },
        old(lex).cur().pos <= final(lex).cur().pos,
        r is Ok ==> view_counts(nodes_of(r->Ok_0@)) <= final(lex).cur().pos - old(lex).cur().pos,
    decreases old(lex).bytes().len() - old(lex).cur().pos, 1int,
{
    let ghost b = lex.bytes();
    let ghost from = lex.cur();
    let ghost goal = children_at(b, from, Seq::empty());
    let mut children: Vec<SwiftView> = Vec::new();
    assert(nodes_of(children@) =~= Seq::<SwiftNode>::empty());
    lex.bounds();
    loop
        invariant
            lex.bytes() == b,
            b == old(lex).bytes(),
            from == old(lex).cur(),
            0 <= from.pos <= lex.cur().pos <= b.len(),
            children_at(b, lex.cur(), nodes_of(children@)) == goal,
            goal == children_at(b, from, Seq::empty()),
            view_counts(nodes_of(children@)) <= lex.cur().pos - from.pos,
        decreases b.len() - lex.cur().pos,
    {
        lex.skip_trivia();
        let first = lex.peek();
        if first == Some(125u8) {
            lex.advance();
            return Ok(children);
        }
        if first.is_none() {
            return Ok(children);
        }
        if is_upper(first) {
            let ghost c0 = lex.cur();
            proof {
                crate::scan::lemma_run_end(b, c0, Class::Word);
            }
            let kind = lex.read_run(Class::Word);
            lex.bounds();
            let child = match parse_view_body(lex, kind) {
                Ok(child) => child,
                Err(e) => {
                    return Err(e);
                },
            };
            lex.bounds();
            let ghost before = nodes_of(children@);
            let ghost model = node_of(child);
            children.push(child);
            proof {
                assert(nodes_of(children@) =~= before.push(model));
                assert(before.push(model).drop_last() =~= before);
            }
        } else {
            lex.advance();
            lex.bounds();
        }
    }
}

/// Takes the views of a source.
fn parse_file(lex: &mut Scanner<'_>) -> (r: Result<Vec<SwiftView>, Halt>)
    requires
        old(lex).cur() == start(),
    ensures
        match views_of(old(lex).bytes()) {
            Ok(views) => r is Ok && nodes_of(r->Ok_0@) == views,
            Err(e) => r is Err && stop_of(r->Err_0) == e,
        },
        r is Ok ==> view_counts(nodes_of(r->Ok_0@)) <= old(lex).bytes().len(),
        old(lex).bytes().len() <= usize::MAX,
{
    let ghost b = lex.bytes();
    let ghost goal = views_of(b);
    let mut views: Vec<SwiftView> = Vec::new();
    assert(nodes_of(views@) =~= Seq::<SwiftNode>::empty());
    lex.bounds();
    loop
        invariant
            lex.bytes() == b,
            b == old(lex).bytes(),
            b.len() <= usize::MAX,
            0 <= lex.cur().pos <= b.len(),
            views_at(b, lex.cur(), nodes_of(views@)) == goal,
            goal == views_of(b),
            view_counts(nodes_of(views@)) <= lex.cur().pos,
        decreases b.len() - lex.cur().pos,
    {
        lex.skip_trivia();
        let first = lex.peek();
        if first.is_none() {
            return Ok(views);
        }
        if is_upper(first) {
            let ghost c0 = lex.cur();
            proof {
                crate::scan::lemma_run_end(b, c0, Class::Word);
            }
            let kind = lex.read_run(Class::Word);
            lex.bounds();
            let view = match parse_view_body(lex, kind) {
                Ok(view) => view,
                Err(e) => {
                    return Err(e);
                },
            };
            lex.bounds();
            let ghost before = nodes_of(views@);
            let ghost model = node_of(view);
            views.push(view);
            proof {
                assert(nodes_of(views@) =~= before.push(model));
                assert(before.push(model).drop_last() =~= before);
            }
        } else {
            lex.advance();
            lex.bounds();
        }
    }
}

/// The kind of node that a view becomes.
pub open spec fn node_kind(kind: Seq<char>) -> Seq<char> {
    if kind == "VStack"@ {
        "Column"@
    } else if kind == "HStack"@ {
        "Row"@
    } else if kind == "ZStack"@ || kind == "Group"@ || kind == "ScrollView"@ {
        "Stack"@
    } else if kind == "RoundedRectangle"@ || kind == "Rectangle"@ || kind == "Spacer"@ {
        "Rect"@
    } else {
        kind
    }
}

/// The property that an argument or modifier becomes.
pub open spec fn node_prop(kind: Seq<char>, key: Seq<char>) -> Seq<char> {
    if kind == "Image"@ && (key == "name"@ || key == "systemName"@) {
        "content"@
    } else {
        key
    }
}

/// Properties that are lengths in pixels.
pub open spec fn in_pixels(key: Seq<char>) -> bool {
    key == "size"@ || key == "width"@ || key == "height"@ || key == "padding"@ || key == "corner_radius"@ || key
        == "opacity"@
}

/// The double that a decimal text denotes, `0.0` where it denotes none.
pub open spec fn read(fl: Unit, text: Seq<char>) -> u64 {
    bits(fl(FloatQuery::Read { text }))
}

/// The double that a number is.
pub open spec fn number_bits(n: SwiftNumber, fl: Unit) -> u64 {
    match n {
        SwiftNumber::Text(s) => read(fl, s),
        SwiftNumber::Single(b) => bits(fl(FloatQuery::Widen { single: b })),
        SwiftNumber::One => ONE,
    }
}

/// A colour component: a fraction of 255, rounded down; none written is none of it.
pub open spec fn component(text: Seq<char>, fl: Unit) -> u32 {
    if text.len() == 0 {
        0
    } else {
        truncated(
            bits(fl(FloatQuery::Mul { a: read(fl, text), b: TWO_FIFTY_FIVE })),
            0,
            u32::MAX as int,
        ) as u32
    }
}

/// An opaque colour packed as `0xRRGGBBAA`.
pub open spec fn packed(r: u32, g: u32, b: u32) -> u32 {
    (r << 24u32) | (g << 16u32) | (b << 8u32) | 0xFFu32
}

/// The property value that a parsed value becomes under a key.
pub open spec fn prop_value(key: Seq<char>, t: SwiftTerm, fl: Unit) -> ValueModel {
    match t {
        SwiftTerm::Str(s) => ValueModel::Text(s),
        SwiftTerm::Float(n) => if in_pixels(key) {
            ValueModel::Px(
                low_half(bits(fl(FloatQuery::Narrow { double: number_bits(n, fl) }))),
            )
        } else {
            ValueModel::Float(number_bits(n, fl))
        },
        SwiftTerm::Bool(x) => ValueModel::Bool(x),
        SwiftTerm::Color(c) => ValueModel::Color(c),
        SwiftTerm::Rgb(r, g, b) => ValueModel::Color(
            packed(component(r, fl), component(g, fl), component(b, fl)),
        ),
        SwiftTerm::FontRole(px) => ValueModel::Px(px),
        SwiftTerm::Ident(s) => ValueModel::Text(s),
        SwiftTerm::Range(lo, hi) => ValueModel::List(
            seq![ValueModel::Float(read(fl, lo)), ValueModel::Float(read(fl, hi))],
        ),
    }
}

/// The document after the properties from the `i`-th on were set on a node; a range sets two.
pub open spec fn with_props(v: SwiftNode, id: NodeId, i: int, d: DocModel, fl: Unit) -> DocModel
    decreases v.props.len() - i,
{
    if i < 0 || i >= v.props.len() {
        d
    } else {
        let key = node_prop(v.kind, v.props[i].0);
        let d1 = match v.props[i].1 {
            SwiftTerm::Range(lo, hi) => sys(
                sys(
                    d,
                    MutationModel::SetProp {
                        id,
                        key: "range_min"@,
                        value: ValueModel::Float(read(fl, lo)),
                    },
                ),
                MutationModel::SetProp {
                    id,
                    key: "range_max"@,
                    value: ValueModel::Float(read(fl, hi)),
                },
            ),
            t => sys(d, MutationModel::SetProp { id, key, value: prop_value(key, t, fl) }),
        };
        with_props(v, id, i + 1, d1, fl)
    }
}

/// The document after the callbacks from the `i`-th on were set on a node.
pub open spec fn with_callbacks(v: SwiftNode, id: NodeId, i: int, d: DocModel) -> DocModel
    decreases v.callbacks.len() - i,
{
    if i < 0 || i >= v.callbacks.len() {
        d
    } else {
        with_callbacks(
            v,
            id,
            i + 1,
            sys(
                d,
                MutationModel::SetCallback {
                    id,
                    event: v.callbacks[i],
                    action: ActionModel { name: "action"@, args: Seq::empty() },
                },
            ),
        )
    }
}

/// The document and the omissions after a view was added. Its node gets the next id.
pub open spec fn lowered(v: SwiftNode, d: DocModel, un: Seq<Omission>, fl: Unit) -> (
    DocModel,
    Seq<Omission>,
)
    decreases v, v.children.len() + 1,
{
    let id = NodeId(d.next_id);
    let d1 = created(d, node_kind(v.kind));
    let d2 = match v.label {
        Some(s) => sys(
            d1,
            MutationModel::SetProp { id, key: "content"@, value: ValueModel::Text(s) },
        ),
        None => d1,
    };
    let d3 = with_callbacks(v, id, 0, with_props(v, id, 0, d2, fl));
    lowered_children(v, id, 0, d3, un + v.unsupported, fl)
}

/// The document and the omissions after the children from the `i`-th on were added.
pub open spec fn lowered_children(
    v: SwiftNode,
    id: NodeId,
    i: int,
    d: DocModel,
    un: Seq<Omission>,
    fl: Unit,
) -> (DocModel, Seq<Omission>)
    decreases v, v.children.len() - i,
{
    if i < 0 || i >= v.children.len() {
        (d, un)
    } else {
        let (d1, un1) = lowered(v.children[i], d, un, fl);
        lowered_children(
            v,
            id,
            i + 1,
            sys(d1, MutationModel::AppendChild { parent: id, child: NodeId(d.next_id) }),
            un1,
            fl,
        )
    }
}

/// The document and the omissions after the views from the `i`-th on were added; the first of all
/// is the root.
pub open spec fn assembled(views: Seq<SwiftNode>, i: int, d: DocModel, un: Seq<Omission>, fl: Unit) -> (
    DocModel,
    Seq<Omission>,
)
    decreases views.len() - i,
{
    if i < 0 || i >= views.len() {
        (d, un)
    } else {
        let (d1, un1) = lowered(views[i], d, un, fl);
        let d2 = if i == 0 {
            sys(d1, MutationModel::SetRoot { id: NodeId(d.next_id) })
        } else {
            d1
        };
        assembled(views, i + 1, d2, un1, fl)
    }
}

fn map_kind(kind: &str) -> (r: String)
    ensures
        r@ == node_kind(kind@),
{
    if same(kind, "VStack") {
        copy("Column")
    } else if same(kind, "HStack") {
        copy("Row")
    } else if same(kind, "ZStack") || same(kind, "Group") || same(kind, "ScrollView") {
        copy("Stack")
    } else if same(kind, "RoundedRectangle") || same(kind, "Rectangle") || same(kind, "Spacer") {
        copy("Rect")
    } else {
        copy(kind)
    }
}

fn pixel_key(key: &str) -> (r: bool)
    ensures
        r == in_pixels(key@),
{
    same(key, "size") || same(key, "width") || same(key, "height") || same(key, "padding") || same(
        key,
        "corner_radius",
    ) || same(key, "opacity")
}

fn num_bits<F: Fn(&FloatOp) -> Option<u64>>(n: &Num, fl: &F) -> (r: u64)
    requires
        steady(*fl),
    ensures
        r == number_bits(number_of(*n), unit(*fl)),
{
    match n {
        Num::Text(s) => read_or_zero(fl, s.as_str()),
        Num::Single(b) => widen(fl, *b),
        Num::One => ONE,
    }
}

fn channel<F: Fn(&FloatOp) -> Option<u64>>(text: &String, fl: &F) -> (r: u32)
    requires
        steady(*fl),
    ensures
        r == component(text@, unit(*fl)),
{
    if text.as_str().is_empty() {
        0
    } else {
        let a: u64 = read_or_zero(fl, text.as_str());
        to_u32(double(fl, &FloatOp::Mul { a, b: TWO_FIFTY_FIVE }))
    }
}

fn swiftval_to_ir<F: Fn(&FloatOp) -> Option<u64>>(key: &str, v: &SwiftValue, fl: &F) -> (r: Value)
    requires
        steady(*fl),
    ensures
        r@ == prop_value(key@, term_of(*v), unit(*fl)),
{
    match v {
        SwiftValue::Str(s) => Value::Text(s.clone()),
        SwiftValue::Float(n) => {
            let d: u64 = num_bits(n, fl);
            if pixel_key(key) {
                Value::Px(narrow(fl, d))
            } else {
                Value::Float(d)
            }
        },
        SwiftValue::Bool(x) => Value::Bool(*x),
        SwiftValue::Color(c) => Value::Color(*c),
        SwiftValue::Rgb(r, g, b) => {
            let r8: u32 = channel(r, fl);
            let g8: u32 = channel(g, fl);
            let b8: u32 = channel(b, fl);
            Value::Color((r8 << 24u32) | (g8 << 16u32) | (b8 << 8u32) | 0xFFu32)
        },
        SwiftValue::FontRole(px) => Value::Px(*px),
        SwiftValue::Ident(s) => Value::Text(s.clone()),
        SwiftValue::Range(lo, hi) => {
            let mut items: Vec<Value> = Vec::new();
            items.push(Value::Float(read_or_zero(fl, lo.as_str())));
            items.push(Value::Float(read_or_zero(fl, hi.as_str())));
            assert(items@[0]@ == ValueModel::Float(read(unit(*fl), lo@)));
            assert(items@[1]@ == ValueModel::Float(read(unit(*fl), hi@)));
            let r = Value::List(items);
            assert(r@->List_0 =~= prop_value(key@, term_of(*v), unit(*fl))->List_0);
            r
        },
    }
}

fn set_props<F: Fn(&FloatOp) -> Option<u64>>(view: &SwiftView, id: NodeId, doc: &mut Document, fl: &F)
    requires
        steady(*fl),
        sprouting(old(doc)@),
    ensures
        final(doc)@ == with_props(node_of(*view), id, 0, old(doc)@, unit(*fl)),
        sprouting(final(doc)@),
        rooted_in(old(doc)@, final(doc)@),
        final(doc)@.next_id == old(doc)@.next_id,
{
    let ghost m = node_of(*view);
    let ghost goal = with_props(m, id, 0, doc@, unit(*fl));
    let mut i: usize = 0;
    while i < view.props.len()
        invariant
            steady(*fl),
            m == node_of(*view),
            i <= view.props@.len(),
            with_props(m, id, i as int, doc@, unit(*fl)) == goal,
            sprouting(doc@),
            rooted_in(old(doc)@, doc@),
            doc@.next_id == old(doc)@.next_id,
        decreases view.props.len() - i,
    {
        let e = &view.props[i];
        assert(m.props[i as int] == (e.0@, term_of(e.1)));
        let named = same(view.kind.as_str(), "Image") && (same(e.0.as_str(), "name") || same(
            e.0.as_str(),
            "systemName",
        ));
        let key = if named {
            copy("content")
        } else {
            e.0.clone()
        };
        match &e.1 {
            SwiftValue::Range(lo, hi) => {
                let a: u64 = read_or_zero(fl, lo.as_str());
                let b: u64 = read_or_zero(fl, hi.as_str());
                apply_system(
                    doc,
                    Mutation::SetProp { id, key: copy("range_min"), value: Value::Float(a) },
                );
                apply_system(
                    doc,
                    Mutation::SetProp { id, key: copy("range_max"), value: Value::Float(b) },
                );
            },
            other => {
                let value = swiftval_to_ir(key.as_str(), other, fl);
                apply_system(doc, Mutation::SetProp { id, key, value });
            },
        }
        i += 1;
    }
}

fn set_callbacks(view: &SwiftView, id: NodeId, doc: &mut Document)
    requires
        sprouting(old(doc)@),
    ensures
        final(doc)@ == with_callbacks(node_of(*view), id, 0, old(doc)@),
        sprouting(final(doc)@),
        rooted_in(old(doc)@, final(doc)@),
        final(doc)@.next_id == old(doc)@.next_id,
{
    let ghost m = node_of(*view);
    let ghost goal = with_callbacks(m, id, 0, doc@);
    let mut i: usize = 0;
    while i < view.callbacks.len()
        invariant
            m == node_of(*view),
            i <= view.callbacks@.len(),
            with_callbacks(m, id, i as int, doc@) == goal,
            sprouting(doc@),
            rooted_in(old(doc)@, doc@),
            doc@.next_id == old(doc)@.next_id,
        decreases view.callbacks.len() - i,
    {
        let event = view.callbacks[i].clone();
        let action = Action { name: copy("action"), args: Vec::new() };
        assert(action@.args =~= Seq::<ValueModel>::empty());
        apply_system(doc, Mutation::SetCallback { id, event, action });
        i += 1;
    }
}

fn hoist(from: &Vec<Unsupported>, to: &mut Vec<Unsupported>)
    ensures
        omissions(final(to)@) == omissions(old(to)@) + omissions(from@),
{
    let ghost before = omissions(to@);
    let ghost all = omissions(from@);
    let mut i: usize = 0;
    assert(before + all.take(0) =~= before);
    while i < from.len()
        invariant
            all == omissions(from@),
            i <= from@.len(),
            omissions(to@) == before + all.take(i as int),
        decreases from.len() - i,
    {
        let ghost so_far = omissions(to@);
        let u = Unsupported { line: from[i].line, text: from[i].text.clone() };
        let ghost model = u@;
        to.push(u);
        assert(omissions(to@) =~= so_far.push(model));
        assert(all.take(i + 1) =~= all.take(i as int).push(all[i as int]));
        assert(so_far.push(model) =~= before + all.take(i + 1));
        i += 1;
    }
    assert(all.take(i as int) =~= all);
}

proof fn lemma_counts_prefix(s: Seq<SwiftNode>, i: int)
    requires
        0 <= i <= s.len(),
    ensures
        view_counts(s.take(i)) <= view_counts(s),
        i < s.len() ==> view_counts(s.take(i + 1)) == view_counts(s.take(i)) + view_count(s[i]),
    decreases s.len(),
{
    if i < s.len() {
        assert(s.take(i + 1).drop_last() =~= s.take(i));
    }
    if i == s.len() {
        assert(s.take(i) =~= s);
    } else {
        lemma_counts_prefix(s.drop_last(), i);
        assert(s.drop_last().take(i) =~= s.take(i));
    }
}

/// Adds a view to the document; what has no place there is noted.
fn lower_view<F: Fn(&FloatOp) -> Option<u64>>(
    view: &SwiftView,
    doc: &mut Document,
    unsupported: &mut Vec<Unsupported>,
    fl: &F,
) -> (r: NodeId)
    requires
        steady(*fl),
        sprouting(old(doc)@),
        old(doc)@.next_id + view_count(node_of(*view)) <= u64::MAX,
    ensures
        r == NodeId(old(doc)@.next_id),
        (final(doc)@, omissions(final(unsupported)@)) == lowered(
            node_of(*view),
            old(doc)@,
            omissions(old(unsupported)@),
            unit(*fl),
        ),
        sprouting(final(doc)@),
        rooted_in(old(doc)@, final(doc)@),
        final(doc)@.tree.nodes.dom().contains(r),
        final(doc)@.tree.nodes[r].parent is None,
        final(doc)@.next_id <= old(doc)@.next_id + view_count(node_of(*view)),
    decreases view,
{
    let ghost m = node_of(*view);
    let ghost goal = lowered(m, doc@, omissions(unsupported@), unit(*fl));
    let ghost first = doc@.next_id;
    proof {
        lemma_node_of(*view);
    }
    hoist(&view.unsupported, unsupported);
    let id = create(doc, map_kind(view.kind.as_str()));
    match &view.label {
        Some(s) => {
            apply_system(
                doc,
                Mutation::SetProp { id, key: copy("content"), value: Value::Text(s.clone()) },
            );
        },
        None => {},
    }
    set_props(view, id, doc, fl);
    set_callbacks(view, id, doc);
    let mut i: usize = 0;
    assert(m.children.take(0) =~= Seq::<SwiftNode>::empty());
    while i < view.children.len()
        invariant
            steady(*fl),
            m == node_of(*view),
            m.children == nodes_of(view.children@),
            i <= view.children@.len(),
            lowered_children(m, id, i as int, doc@, omissions(unsupported@), unit(*fl)) == goal,
            sprouting(doc@),
            sprouting(old(doc)@),
            rooted_in(old(doc)@, doc@),
            doc@.tree.nodes.dom().contains(id),
            doc@.tree.nodes[id].parent is None,
            first + 1 + view_counts(m.children) <= u64::MAX,
            doc@.next_id <= first + 1 + view_counts(m.children.take(i as int)),
        decreases view.children.len() - i,
    {
        proof {
            lemma_counts_prefix(m.children, i as int);
            lemma_counts_prefix(m.children, i + 1);
            assert(decreases_to!(view => view.children@[i as int]));
            assert(m.children[i as int] == node_of(view.children@[i as int]));
        }
        let child = lower_view(&view.children[i], doc, unsupported, fl);
        proof {
            lemma_hung_sprouts(old(doc)@, doc@, id, child);
        }
        apply_system(doc, Mutation::AppendChild { parent: id, child });
        i += 1;
    }
    assert(m.children.take(i as int) =~= m.children);
    id
}

/// Reads a source into a document as [`parse_with_report`] does, where the reader comes to an end;
/// `None` where it would wait forever for a closing bracket.
pub fn try_parse<F: Fn(&FloatOp) -> Option<u64>>(src: &str, fl: &F) -> (r: Option<
    Result<ImportReport, SwiftUIImportError>,
>)
    requires
        steady(*fl),
    ensures
        match views_of(encode_utf8(src@)) {
            Ok(views) => {
                &&& r matches Some(Ok(report))
                &&& (report.document@, omissions(report.unsupported@)) == assembled(
                    views,
                    0,
                    empty_doc(),
                    Seq::empty(),
                    unit(*fl),
                )
                &&& orderly(report.document@)
            },
            Err(SwiftStop::Fault(e)) => r matches Some(Err(f)) && f@ == e,
            Err(SwiftStop::Endless) => r is None,
        },
{
    let mut lex = Scanner::new(src);
    let views = match parse_file(&mut lex) {
        Ok(views) => views,
        Err(Halt::Fault(e)) => {
            return Some(Err(e));
        },
        Err(Halt::Endless) => {
            return None;
        },
    };
    let ghost m = nodes_of(views@);
    let mut document = Document::new();
    let mut unsupported: Vec<Unsupported> = Vec::new();
    assert(omissions(unsupported@) =~= Seq::<Omission>::empty());
    let ghost goal = assembled(m, 0, empty_doc(), Seq::empty(), unit(*fl));
    proof {
        lemma_empty_sprouting();
    }
    let mut i: usize = 0;
    assert(m.take(0) =~= Seq::<SwiftNode>::empty());
    while i < views.len()
        invariant
            steady(*fl),
            m == nodes_of(views@),
            i <= views@.len(),
            assembled(m, i as int, document@, omissions(unsupported@), unit(*fl)) == goal,
            sprouting(document@),
            view_counts(m) <= u64::MAX,
            document@.next_id <= view_counts(m.take(i as int)),
        decreases views.len() - i,
    {
        proof {
            lemma_counts_prefix(m, i as int);
            lemma_counts_prefix(m, i + 1);
            assert(m[i as int] == node_of(views@[i as int]));
        }
        let id = lower_view(&views[i], &mut document, &mut unsupported, fl);
        if i == 0 {
            apply_system(&mut document, Mutation::SetRoot { id });
        }
        i += 1;
    }
    proof {
        lemma_sprouting_orderly(document@);
    }
    Some(Ok(ImportReport { document, unsupported }))
}

/// Reads a source into a document, and notes the modifiers that were left out. The first view
/// becomes the root. A source on which the reader waits forever for a closing bracket must not be
/// given.
pub fn parse_with_report<F: Fn(&FloatOp) -> Option<u64>>(src: &str, fl: &F) -> (r: Result<
    ImportReport,
    SwiftUIImportError,
>)
    requires
        steady(*fl),
        views_of(encode_utf8(src@)) != Err::<Seq<SwiftNode>, SwiftStop>(SwiftStop::Endless),
    ensures
        match views_of(encode_utf8(src@)) {
            Ok(views) => {
                &&& r is Ok
                &&& (r->Ok_0.document@, omissions(r->Ok_0.unsupported@)) == assembled(
                    views,
                    0,
                    empty_doc(),
                    Seq::empty(),
                    unit(*fl),
                )
            },
            Err(SwiftStop::Fault(e)) => r is Err && r->Err_0@ == e,
            Err(SwiftStop::Endless) => true,
        },
        r matches Ok(report) ==> orderly(report.document@),
{
    match try_parse(src, fl) {
        Some(r) => r,
        None => {
            assert(false);
            Err(SwiftUIImportError { message: String::new(), line: 0 })
        },
    }
}

/// Reads a source into a document. Its links agree, and it can be walked.
pub fn parse<F: Fn(&FloatOp) -> Option<u64>>(src: &str, fl: &F) -> (r: Result<
    Document,
    SwiftUIImportError,
>)
    requires
        steady(*fl),
        views_of(encode_utf8(src@)) != Err::<Seq<SwiftNode>, SwiftStop>(SwiftStop::Endless),
    ensures
        match views_of(encode_utf8(src@)) {
            Ok(views) => {
                &&& r is Ok
                &&& r->Ok_0@ == assembled(views, 0, empty_doc(), Seq::empty(), unit(*fl)).0
            },
            Err(SwiftStop::Fault(e)) => r is Err && r->Err_0@ == e,
            Err(SwiftStop::Endless) => true,
        },
        r matches Ok(d) ==> orderly(d@),
{
    match parse_with_report(src, fl) {
        Ok(report) => Ok(report.document),
        Err(e) => Err(e),
    }
}

} // verus!
