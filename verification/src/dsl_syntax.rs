//! The syntax of the `.uni` language: elements with properties, bindings, event handlers, `if`
//! and `for` blocks and child elements.
use vstd::prelude::*;

use crate::dsl_token::{token_models, Token, TokenModel};
use crate::float::{bits, low_half, read_or_zero, single, steady, unit, FloatOp, FloatQuery, Unit};
use crate::scan::{hex_value, is_hex_u32, parse_hex};
use crate::text::{chars_of, copy, decimal, decimal_text, integer64, join, parse_i64, text_of};
use crate::value::ValueModel;

verus! {

/// A literal as the source writes it.
#[derive(Debug, Clone)]
pub enum Literal {
    Str(String),
    Int(i64),
    /// A double, by its bits.
    Float(u64),
    Bool(bool),
    /// Packed as `0xRRGGBBAA`.
    Color(u32),
    /// A single, by its bits.
    Px(u32),
}

impl View for Literal {
    type V = ValueModel;

    open spec fn view(&self) -> ValueModel {
        match *self {
            Literal::Str(s) => ValueModel::Text(s@),
            Literal::Int(i) => ValueModel::Int(i),
            Literal::Float(b) => ValueModel::Float(b),
            Literal::Bool(b) => ValueModel::Bool(b),
            Literal::Color(c) => ValueModel::Color(c),
            Literal::Px(b) => ValueModel::Px(b),
        }
    }
}

/// What stands behind the colon of a property.
#[derive(Debug, Clone)]
pub enum PropValue {
    Literal(Literal),
    /// A path, without its dollar sign.
    Binding(String),
}

/// A [`PropValue`] as mathematics.
pub enum PropValueModel {
    Literal(ValueModel),
    Binding(Seq<char>),
}

impl View for PropValue {
    type V = PropValueModel;

    open spec fn view(&self) -> PropValueModel {
        match *self {
            PropValue::Literal(l) => PropValueModel::Literal(l@),
            PropValue::Binding(s) => PropValueModel::Binding(s@),
        }
    }
}

/// A property.
#[derive(Debug, Clone)]
pub struct Prop {
    pub key: String,
    pub value: PropValue,
}

/// A [`Prop`] as mathematics.
pub struct PropModel {
    pub key: Seq<char>,
    pub value: PropValueModel,
}

impl View for Prop {
    type V = PropModel;

    open spec fn view(&self) -> PropModel {
        PropModel { key: self.key@, value: self.value@ }
    }
}

/// An event handler.
#[derive(Debug, Clone)]
pub struct Callback {
    pub event: String,
    pub action: String,
    pub args: Vec<Literal>,
}

/// A [`Callback`] as mathematics.
pub struct CallbackModel {
    pub event: Seq<char>,
    pub action: Seq<char>,
    pub args: Seq<ValueModel>,
}

/// The models of a row of literals.
pub open spec fn literal_models(s: Seq<Literal>) -> Seq<ValueModel> {
    s.map_values(|l: Literal| l@)
}

impl View for Callback {
    type V = CallbackModel;

    open spec fn view(&self) -> CallbackModel {
        CallbackModel { event: self.event@, action: self.action@, args: literal_models(self.args@) }
    }
}

/// An element: a kind and what is between its braces. An `if` or `for` block is an element of
/// kind `If` or `For` with a binding of its own.
#[derive(Debug)]
pub struct Element {
    pub kind: String,
    pub props: Vec<Prop>,
    pub callbacks: Vec<Callback>,
    pub children: Vec<Element>,
    pub element_bindings: Vec<(String, String)>,
}

/// An [`Element`] as mathematics.
pub struct ElementModel {
    pub kind: Seq<char>,
    pub props: Seq<PropModel>,
    pub callbacks: Seq<CallbackModel>,
    pub children: Seq<ElementModel>,
    pub bindings: Seq<(Seq<char>, Seq<char>)>,
}

/// The models of a row of properties.
pub open spec fn prop_list(s: Seq<Prop>) -> Seq<PropModel> {
    s.map_values(|p: Prop| p@)
}

/// The models of a row of handlers.
pub open spec fn callback_list(s: Seq<Callback>) -> Seq<CallbackModel> {
    s.map_values(|c: Callback| c@)
}

/// The models of a row of bindings.
pub open spec fn binding_list(s: Seq<(String, String)>) -> Seq<(Seq<char>, Seq<char>)> {
    s.map_values(|b: (String, String)| (b.0@, b.1@))
}

/// The mathematical content of an element.
pub open spec fn element_model(e: Element) -> ElementModel
    decreases e,
{
    ElementModel {
        kind: e.kind@,
        props: prop_list(e.props@),
        callbacks: callback_list(e.callbacks@),
        children: Seq::new(
            e.children@.len(),
            |i: int|
                if 0 <= i < e.children@.len() {
                    element_model(e.children@[i])
                } else {
                    arbitrary()
                },
        ),
        bindings: binding_list(e.element_bindings@),
    }
}

impl View for Element {
    type V = ElementModel;

    open spec fn view(&self) -> ElementModel {
        element_model(*self)
    }
}

/// The models of a row of elements.
pub open spec fn element_list(s: Seq<Element>) -> Seq<ElementModel> {
    s.map_values(|e: Element| e@)
}

impl Element {
    /// An element without bindings of its own.
    pub fn new(kind: String, props: Vec<Prop>, callbacks: Vec<Callback>, children: Vec<Element>) -> (r: Element)
        ensures
            r@ == (ElementModel {
                kind: kind@,
                props: prop_list(props@),
                callbacks: callback_list(callbacks@),
                children: element_list(children@),
                bindings: Seq::empty(),
            }),
    {
        let r = Element { kind, props, callbacks, children, element_bindings: Vec::new() };
        assert(r@.children =~= element_list(children@));
        assert(r@.bindings =~= Seq::empty());
        r
    }
}

/// What the parser was looking for, and at which token.
pub struct Fault {
    pub at: int,
    pub wanted: Seq<char>,
}

/// A fault in words.
pub open spec fn fault_text(f: Fault) -> Seq<char> {
    "expected "@ + f.wanted + " at token "@ + decimal(f.at as nat)
}

/// The token at `p`, if there is one.
pub open spec fn tok(t: Seq<TokenModel>, p: int) -> Option<TokenModel> {
    if 0 <= p < t.len() {
        Some(t[p])
    } else {
        None
    }
}

/// A text without its first character.
pub open spec fn behind_mark(s: Seq<char>) -> Seq<char> {
    if s.len() > 0 {
        s.skip(1)
    } else {
        s
    }
}

/// A text without its last two characters.
pub open spec fn before_unit(s: Seq<char>) -> Seq<char> {
    if s.len() > 2 {
        s.take(s.len() - 2)
    } else {
        Seq::empty()
    }
}

/// A colour as a number: six digits are opaque.
pub open spec fn color_value(s: Seq<char>) -> u32 {
    let digits = behind_mark(s);
    let v = if is_hex_u32(digits) {
        hex_value(digits)
    } else {
        0
    };
    if digits.len() == 6 {
        (v * 0x100 + 0xFF) as u32
    } else {
        v as u32
    }
}

/// The text holds a dot.
pub open spec fn dotted(s: Seq<char>) -> bool {
    exists|i: int| 0 <= i < s.len() && #[trigger] s[i] == '.'
}

/// The value of a literal token, if it is one.
pub open spec fn literal_of(t: TokenModel, fl: Unit) -> Option<ValueModel> {
    match t {
        TokenModel::Str(s) => Some(ValueModel::Text(s)),
        TokenModel::Bool(b) => Some(ValueModel::Bool(b)),
        TokenModel::Color(s) => Some(ValueModel::Color(color_value(s))),
        TokenModel::Length(s) => Some(
            ValueModel::Px(
                low_half(
                    bits(
                        fl(FloatQuery::ReadSingle { text: before_unit(s) }),
                    ),
                ),
            ),
        ),
        TokenModel::Number(s) => Some(
            if dotted(s) {
                ValueModel::Float(bits(fl(FloatQuery::Read { text: s })))
            } else {
                ValueModel::Int(
                    match integer64(s) {
                        Some(n) => n,
                        None => 0,
                    },
                )
            },
        ),
        _ => None,
    }
}

/// What is between the braces of an element.
pub struct Body {
    pub props: Seq<PropModel>,
    pub callbacks: Seq<CallbackModel>,
    pub children: Seq<ElementModel>,
}

/// Nothing between braces.
pub open spec fn no_body() -> Body {
    Body { props: Seq::empty(), callbacks: Seq::empty(), children: Seq::empty() }
}

/// The property at `p`: a name, a colon, a literal or a binding, a semicolon.
pub open spec fn prop_at(t: Seq<TokenModel>, p: int, key: Seq<char>, fl: Unit) -> Result<(PropModel, int), Fault> {
    let value = match tok(t, p + 2) {
        Some(TokenModel::Binding(s)) => Some(PropValueModel::Binding(s)),
        Some(x) => match literal_of(x, fl) {
            Some(v) => Some(PropValueModel::Literal(v)),
            None => None,
        },
        None => None,
    };
    match value {
        None => Err(Fault { at: p + 2, wanted: "a value"@ }),
        Some(v) => if tok(t, p + 3) == Some(TokenModel::Semicolon) {
            Ok((PropModel { key, value: v }, p + 4))
        } else {
            Err(Fault { at: p + 3, wanted: "`;`"@ })
        },
    }
}

/// The arguments from `p` on, up to the closing parenthesis: literals with commas between them.
pub open spec fn args_at(t: Seq<TokenModel>, p: int, acc: Seq<ValueModel>, fl: Unit) -> Result<
    (Seq<ValueModel>, int),
    Fault,
>
    decreases t.len() - p,
{
    match tok(t, p) {
        None => Err(Fault { at: p, wanted: "a value"@ }),
        Some(x) => match literal_of(x, fl) {
            None => Err(Fault { at: p, wanted: "a value"@ }),
            Some(v) => if tok(t, p + 1) == Some(TokenModel::Comma) {
                args_at(t, p + 2, acc.push(v), fl)
            } else if tok(t, p + 1) == Some(TokenModel::RParen) {
                Ok((acc.push(v), p + 2))
            } else {
                Err(Fault { at: p + 1, wanted: "`,` or `)`"@ })
            },
        },
    }
}

/// The handler at `p`: `on`, an event, a colon, a name, arguments in parentheses, a semicolon.
pub open spec fn callback_at(t: Seq<TokenModel>, p: int, fl: Unit) -> Result<(CallbackModel, int), Fault> {
    match tok(t, p + 1) {
        Some(TokenModel::Ident(event)) => if tok(t, p + 2) != Some(TokenModel::Colon) {
            Err(Fault { at: p + 2, wanted: "`:`"@ })
        } else {
            match tok(t, p + 3) {
                Some(TokenModel::Ident(action)) => if tok(t, p + 4) != Some(TokenModel::LParen) {
                    Err(Fault { at: p + 4, wanted: "`(`"@ })
                } else {
                    let args = if tok(t, p + 5) == Some(TokenModel::RParen) {
                        Ok((Seq::empty(), p + 6))
                    } else {
                        args_at(t, p + 5, Seq::empty(), fl)
                    };
                    match args {
                        Err(f) => Err(f),
                        Ok((v, q)) => if tok(t, q) == Some(TokenModel::Semicolon) {
                            Ok((CallbackModel { event, action, args: v }, q + 1))
                        } else {
                            Err(Fault { at: q, wanted: "`;`"@ })
                        },
                    }
                },
                _ => Err(Fault { at: p + 3, wanted: "an action"@ }),
            }
        },
        _ => Err(Fault { at: p + 1, wanted: "an event"@ }),
    }
}

/// The element at `p`: a kind and a body in braces.
pub open spec fn element_at(t: Seq<TokenModel>, p: int, fl: Unit) -> Result<(ElementModel, int), Fault>
    decreases t.len() - p, 0int,
{
    match tok(t, p) {
        Some(TokenModel::Ident(kind)) => if tok(t, p + 1) != Some(TokenModel::LBrace) {
            Err(Fault { at: p + 1, wanted: "`{`"@ })
        } else {
            match body_at(t, p + 2, no_body(), true, fl) {
                Err(f) => Err(f),
                Ok((b, q)) => Ok(
                    (
                        ElementModel {
                            kind,
                            props: b.props,
                            callbacks: b.callbacks,
                            children: b.children,
                            bindings: Seq::empty(),
                        },
                        q,
                    ),
                ),
            }
        },
        _ => Err(Fault { at: p, wanted: "an element"@ }),
    }
}

/// The block at `p`: a keyword, a binding in parentheses, elements and blocks in braces.
pub open spec fn block_at(t: Seq<TokenModel>, p: int, kind: Seq<char>, key: Seq<char>, fl: Unit) -> Result<
    (ElementModel, int),
    Fault,
>
    decreases t.len() - p, 0int,
{
    if p < 0 || p >= t.len() || tok(t, p + 1) != Some(TokenModel::LParen) {
        Err(Fault { at: p + 1, wanted: "`(`"@ })
    } else {
        match tok(t, p + 2) {
            Some(TokenModel::Binding(path)) => if tok(t, p + 3) != Some(TokenModel::RParen) {
                Err(Fault { at: p + 3, wanted: "`)`"@ })
            } else if tok(t, p + 4) != Some(TokenModel::LBrace) {
                Err(Fault { at: p + 4, wanted: "`{`"@ })
            } else {
                match body_at(t, p + 5, no_body(), false, fl) {
                    Err(f) => Err(f),
                    Ok((b, q)) => Ok(
                        (
                            ElementModel {
                                kind,
                                props: Seq::empty(),
                                callbacks: Seq::empty(),
                                children: b.children,
                                bindings: seq![(key, path)],
                            },
                            q,
                        ),
                    ),
                }
            },
            _ => Err(Fault { at: p + 2, wanted: "a binding"@ }),
        }
    }
}

/// The body from `p` on, up to its closing brace, behind what was read so far. Only the body of
/// an element (`full`) holds properties and handlers.
pub open spec fn body_at(t: Seq<TokenModel>, p: int, acc: Body, full: bool, fl: Unit) -> Result<
    (Body, int),
    Fault,
>
    decreases t.len() - p, 1int,
{
    match tok(t, p) {
        Some(TokenModel::RBrace) => Ok((acc, p + 1)),
        Some(TokenModel::If) => match block_at(t, p, "If"@, "cond"@, fl) {
            Err(f) => Err(f),
            Ok((e, q)) => if p < q <= t.len() {
                body_at(t, q, Body { children: acc.children.push(e), ..acc }, full, fl)
            } else {
                Err(Fault { at: q, wanted: "progress"@ })
            },
        },
        Some(TokenModel::For) => match block_at(t, p, "For"@, "items"@, fl) {
            Err(f) => Err(f),
            Ok((e, q)) => if p < q <= t.len() {
                body_at(t, q, Body { children: acc.children.push(e), ..acc }, full, fl)
            } else {
                Err(Fault { at: q, wanted: "progress"@ })
            },
        },
        Some(TokenModel::On) => if full {
            match callback_at(t, p, fl) {
                Err(f) => Err(f),
                Ok((c, q)) => if p < q <= t.len() {
                    body_at(t, q, Body { callbacks: acc.callbacks.push(c), ..acc }, full, fl)
                } else {
                    Err(Fault { at: q, wanted: "progress"@ })
                },
            }
        } else {
            Err(Fault { at: p, wanted: "an element"@ })
        },
        Some(TokenModel::Ident(key)) => if full && tok(t, p + 1) == Some(TokenModel::Colon) {
            match prop_at(t, p, key, fl) {
                Err(f) => Err(f),
                Ok((x, q)) => if p < q <= t.len() {
                    body_at(t, q, Body { props: acc.props.push(x), ..acc }, full, fl)
                } else {
                    Err(Fault { at: q, wanted: "progress"@ })
                },
            }
        } else {
            match element_at(t, p, fl) {
                Err(f) => Err(f),
                Ok((e, q)) => if p < q <= t.len() {
                    body_at(t, q, Body { children: acc.children.push(e), ..acc }, full, fl)
                } else {
                    Err(Fault { at: q, wanted: "progress"@ })
                },
            }
        },
        _ => Err(
            Fault {
                at: p,
                wanted: if full {
                    "an entry or `}`"@
                } else {
                    "an element or `}`"@
                },
            },
        ),
    }
}

/// The one element that the tokens are.
pub open spec fn root_of(t: Seq<TokenModel>, fl: Unit) -> Result<ElementModel, Fault> {
    match element_at(t, 0, fl) {
        Err(f) => Err(f),
        Ok((e, q)) => if q == t.len() {
            Ok(e)
        } else {
            Err(Fault { at: q, wanted: "the end"@ })
        },
    }
}

/// How many elements there are in an element, itself among them.
pub open spec fn elements_in(e: ElementModel) -> nat
    decreases e, 0int,
{
    1 + elements_in_all(e.children, e.children.len() as int)
}

/// How many elements there are in the first `n` of a row.
pub open spec fn elements_in_all(s: Seq<ElementModel>, n: int) -> nat
    decreases s, n,
{
    if n <= 0 || n > s.len() {
        0
    } else {
        elements_in_all(s, n - 1) + elements_in(s[n - 1])
    }
}

/// Why tokens are not one element.
#[derive(Debug)]
pub struct Flaw {
    pub at: usize,
    pub wanted: &'static str,
}

impl View for Flaw {
    type V = Fault;

    open spec fn view(&self) -> Fault {
        Fault { at: self.at as int, wanted: self.wanted@ }
    }
}

impl Flaw {
    /// The flaw in words.
    pub fn to_text(&self) -> (r: String)
        ensures
            r@ == fault_text(self@),
    {
        let a = join("expected ", self.wanted);
        let b = join(a.as_str(), " at token ");
        join(b.as_str(), decimal_text(self.at as u64).as_str())
    }
}

#[derive(Clone, Copy)]
enum Sign {
    Colon,
    Semicolon,
    Comma,
    LParen,
    RParen,
    LBrace,
}

spec fn sign_token(s: Sign) -> TokenModel {
    match s {
        Sign::Colon => TokenModel::Colon,
        Sign::Semicolon => TokenModel::Semicolon,
        Sign::Comma => TokenModel::Comma,
        Sign::LParen => TokenModel::LParen,
        Sign::RParen => TokenModel::RParen,
        Sign::LBrace => TokenModel::LBrace,
    }
}

fn is_sign(toks: &Vec<Token>, p: usize, want: Sign) -> (r: bool)
    ensures
        r == (tok(token_models(toks@), p as int) == Some(sign_token(want))),
{
    if p >= toks.len() {
        return false;
    }
    assert(token_models(toks@)[p as int] == toks@[p as int]@);
    match (&toks[p], want) {
        (Token::Colon, Sign::Colon) => true,
        (Token::Semicolon, Sign::Semicolon) => true,
        (Token::Comma, Sign::Comma) => true,
        (Token::LParen, Sign::LParen) => true,
        (Token::RParen, Sign::RParen) => true,
        (Token::LBrace, Sign::LBrace) => true,
        _ => false,
    }
}

fn stretch(cs: &Vec<char>, from: usize, to: usize) -> (r: String)
    requires
        from <= to <= cs@.len(),
    ensures
        r@ == cs@.subrange(from as int, to as int),
{
    let mut out: Vec<char> = Vec::new();
    let mut i: usize = from;
    while i < to
        invariant
            from <= i <= to <= cs@.len(),
            out@ == cs@.subrange(from as int, i as int),
        decreases to - i,
    {
        out.push(cs[i]);
        i += 1;
        assert(out@ =~= cs@.subrange(from as int, i as int));
    }
    text_of(&out)
}

proof fn lemma_hex_bound(s: Seq<char>)
    requires
        forall|i: int| 0 <= i < s.len() ==> crate::scan::is_hex(#[trigger] s[i]),
        s.len() <= 6,
    ensures
        0 <= hex_value(s),
        s.len() == 0 ==> hex_value(s) == 0,
        s.len() == 1 ==> hex_value(s) < 0x10,
        s.len() == 2 ==> hex_value(s) < 0x100,
        s.len() == 3 ==> hex_value(s) < 0x1000,
        s.len() == 4 ==> hex_value(s) < 0x1_0000,
        s.len() == 5 ==> hex_value(s) < 0x10_0000,
        s.len() == 6 ==> hex_value(s) < 0x100_0000,
    decreases s.len(),
{
    if s.len() > 0 {
        assert(crate::scan::is_hex(s[s.len() - 1]));
        let d = s.drop_last();
        assert forall|i: int| 0 <= i < d.len() implies crate::scan::is_hex(#[trigger] d[i]) by {
            assert(d[i] == s[i]);
        }
        lemma_hex_bound(d);
    }
}

fn parse_color(raw: &str) -> (r: u32)
    ensures
        r == color_value(raw@),
{
    let cs = chars_of(raw);
    let n: usize = cs.len();
    let from: usize = if n > 0 {
        1
    } else {
        0
    };
    let digits = stretch(&cs, from, n);
    assert(digits@ =~= behind_mark(raw@));
    let v: u32 = match parse_hex(digits.as_str()) {
        Some(v) => v,
        None => 0,
    };
    if n - from == 6 {
        proof {
            if is_hex_u32(digits@) {
                lemma_hex_bound(digits@);
            }
        }
        v * 0x100 + 0xFF
    } else {
        v
    }
}

fn parse_length<F: Fn(&FloatOp) -> Option<u64>>(raw: &str, fl: &F) -> (r: u32)
    requires
        steady(*fl),
    ensures
        r == low_half(bits(unit(*fl)(FloatQuery::ReadSingle { text: before_unit(raw@) }))),
{
    let cs = chars_of(raw);
    let n: usize = cs.len();
    let to: usize = if n > 2 {
        n - 2
    } else {
        0
    };
    let text = stretch(&cs, 0, to);
    assert(text@ =~= before_unit(raw@));
    single(fl, &FloatOp::ReadSingle { text })
}

fn has_dot(raw: &str) -> (r: bool)
    ensures
        r == dotted(raw@),
{
    let cs = chars_of(raw);
    let mut i: usize = 0;
    while i < cs.len()
        invariant
            cs@ == raw@,
            i <= cs@.len(),
            forall|j: int| 0 <= j < i ==> #[trigger] cs@[j] != '.',
        decreases cs.len() - i,
    {
        if cs[i] == '.' {
            assert(raw@[i as int] == '.');
            return true;
        }
        i += 1;
    }
    false
}

fn parse_number<F: Fn(&FloatOp) -> Option<u64>>(raw: &str, fl: &F) -> (r: Literal)
    requires
        steady(*fl),
    ensures
        Some(r@) == literal_of(TokenModel::Number(raw@), unit(*fl)),
{
    if has_dot(raw) {
        Literal::Float(read_or_zero(fl, raw))
    } else {
        Literal::Int(
            match parse_i64(raw) {
                Some(n) => n,
                None => 0,
            },
        )
    }
}

fn parse_literal<F: Fn(&FloatOp) -> Option<u64>>(t: &Token, fl: &F) -> (r: Option<Literal>)
    requires
        steady(*fl),
    ensures
        match r {
            Some(l) => literal_of(t@, unit(*fl)) == Some(l@),
            None => literal_of(t@, unit(*fl)) is None,
        },
{
    match t {
        Token::Str(s) => Some(Literal::Str(copy(s.as_str()))),
        Token::Bool(b) => Some(Literal::Bool(*b)),
        Token::Color(s) => Some(Literal::Color(parse_color(s.as_str()))),
        Token::Length(s) => Some(Literal::Px(parse_length(s.as_str(), fl))),
        Token::Number(s) => Some(parse_number(s.as_str(), fl)),
        _ => None,
    }
}

fn parse_prop<F: Fn(&FloatOp) -> Option<u64>>(toks: &Vec<Token>, p: usize, key: &str, fl: &F) -> (r: Result<
    (Prop, usize),
    Flaw,
>)
    requires
        steady(*fl),
        p + 1 < toks@.len(),
    ensures
        match r {
            Ok((x, q)) => prop_at(token_models(toks@), p as int, key@, unit(*fl)) == Ok::<
                (PropModel, int),
                Fault,
            >((x@, q as int)) && p < q <= toks@.len(),
            Err(f) => prop_at(token_models(toks@), p as int, key@, unit(*fl)) == Err::<
                (PropModel, int),
                Fault,
            >(f@),
        },
{
    let n: usize = toks.len();
    let at: usize = p + 2;
    if at >= n {
        return Err(Flaw { at, wanted: "a value" });
    }
    assert(token_models(toks@)[at as int] == toks@[at as int]@);
    let value = match &toks[at] {
        Token::Binding(s) => Some(PropValue::Binding(copy(s.as_str()))),
        x => match parse_literal(x, fl) {
            Some(l) => Some(PropValue::Literal(l)),
            None => None,
        },
    };
    match value {
        None => Err(Flaw { at, wanted: "a value" }),
        Some(v) => {
            if is_sign(toks, at + 1, Sign::Semicolon) {
                Ok((Prop { key: copy(key), value: v }, at + 2))
            } else {
                Err(Flaw { at: at + 1, wanted: "`;`" })
            }
        },
    }
}

fn parse_args<F: Fn(&FloatOp) -> Option<u64>>(toks: &Vec<Token>, from: usize, fl: &F) -> (r: Result<
    (Vec<Literal>, usize),
    Flaw,
>)
    requires
        steady(*fl),
        from <= toks@.len(),
    ensures
        match r {
            Ok((v, q)) => args_at(token_models(toks@), from as int, Seq::empty(), unit(*fl)) == Ok::<
                (Seq<ValueModel>, int),
                Fault,
            >((literal_models(v@), q as int)) && from < q <= toks@.len(),
            Err(f) => args_at(token_models(toks@), from as int, Seq::empty(), unit(*fl)) == Err::<
                (Seq<ValueModel>, int),
                Fault,
            >(f@),
        },
{
    let n: usize = toks.len();
    let ghost t = token_models(toks@);
    let mut out: Vec<Literal> = Vec::new();
    let mut p: usize = from;
    assert(literal_models(out@) =~= Seq::empty());
    loop
        invariant
            steady(*fl),
            n == toks@.len(),
            t == token_models(toks@),
            from <= p <= n,
            args_at(t, p as int, literal_models(out@), unit(*fl)) == args_at(
                t,
                from as int,
                Seq::empty(),
                unit(*fl),
            ),
        decreases n - p,
    {
        if p >= n {
            return Err(Flaw { at: p, wanted: "a value" });
        }
        assert(t[p as int] == toks@[p as int]@);
        match parse_literal(&toks[p], fl) {
            None => {
                return Err(Flaw { at: p, wanted: "a value" });
            },
            Some(l) => {
                let ghost was = literal_models(out@);
                let ghost m = l@;
                out.push(l);
                assert(literal_models(out@) =~= was.push(m));
                if is_sign(toks, p + 1, Sign::Comma) {
                    p = p + 2;
                } else if is_sign(toks, p + 1, Sign::RParen) {
                    return Ok((out, p + 2));
                } else {
                    return Err(Flaw { at: p + 1, wanted: "`,` or `)`" });
                }
            },
        }
    }
}

fn ident_at<'a>(toks: &'a Vec<Token>, p: usize) -> (r: Option<&'a String>)
    ensures
        match r {
            Some(s) => tok(token_models(toks@), p as int) == Some(TokenModel::Ident(s@)),
            None => !(tok(token_models(toks@), p as int) matches Some(TokenModel::Ident(_))),
        },
{
    if p >= toks.len() {
        return None;
    }
    assert(token_models(toks@)[p as int] == toks@[p as int]@);
    match &toks[p] {
        Token::Ident(s) => Some(s),
        _ => None,
    }
}

fn parse_callback<F: Fn(&FloatOp) -> Option<u64>>(toks: &Vec<Token>, p: usize, fl: &F) -> (r: Result<
    (Callback, usize),
    Flaw,
>)
    requires
        steady(*fl),
        p < toks@.len(),
    ensures
        match r {
            Ok((c, q)) => callback_at(token_models(toks@), p as int, unit(*fl)) == Ok::<
                (CallbackModel, int),
                Fault,
            >((c@, q as int)) && p < q <= toks@.len(),
            Err(f) => callback_at(token_models(toks@), p as int, unit(*fl)) == Err::<
                (CallbackModel, int),
                Fault,
            >(f@),
        },
{
    let n: usize = toks.len();
    let event = match ident_at(toks, p + 1) {
        Some(s) => s,
        None => {
            return Err(Flaw { at: p + 1, wanted: "an event" });
        },
    };
    if !is_sign(toks, p + 2, Sign::Colon) {
        return Err(Flaw { at: p + 2, wanted: "`:`" });
    }
    let action = match ident_at(toks, p + 3) {
        Some(s) => s,
        None => {
            return Err(Flaw { at: p + 3, wanted: "an action" });
        },
    };
    if !is_sign(toks, p + 4, Sign::LParen) {
        return Err(Flaw { at: p + 4, wanted: "`(`" });
    }
    let (args, q) = if is_sign(toks, p + 5, Sign::RParen) {
        let none: Vec<Literal> = Vec::new();
        assert(literal_models(none@) =~= Seq::empty());
        (none, p + 6)
    } else {
        match parse_args(toks, p + 5, fl) {
            Ok(x) => x,
            Err(f) => {
                return Err(f);
            },
        }
    };
    if is_sign(toks, q, Sign::Semicolon) {
        Ok((Callback { event: copy(event.as_str()), action: copy(action.as_str()), args }, q + 1))
    } else {
        Err(Flaw { at: q, wanted: "`;`" })
    }
}

struct Parts {
    props: Vec<Prop>,
    callbacks: Vec<Callback>,
    children: Vec<Element>,
}

impl Parts {
    spec fn model(self) -> Body {
        Body {
            props: prop_list(self.props@),
            callbacks: callback_list(self.callbacks@),
            children: element_list(self.children@),
        }
    }
}

proof fn lemma_elements_push(s: Seq<ElementModel>, e: ElementModel)
    ensures
        elements_in_all(s.push(e), s.len() as int + 1) == elements_in_all(s, s.len() as int) + elements_in(e),
{
    lemma_elements_prefix(s, e, s.len() as int);
}

proof fn lemma_elements_prefix(s: Seq<ElementModel>, e: ElementModel, n: int)
    requires
        0 <= n <= s.len(),
    ensures
        elements_in_all(s.push(e), n) == elements_in_all(s, n),
    decreases n,
{
    if n > 0 {
        lemma_elements_prefix(s, e, n - 1);
        assert(s.push(e)[n - 1] == s[n - 1]);
    }
}

spec fn element_read(
    r: Result<(Element, usize), Flaw>,
    goal: Result<(ElementModel, int), Fault>,
    p: usize,
    n: nat,
) -> bool {
    match r {
        Ok((e, q)) => goal == Ok::<(ElementModel, int), Fault>((e@, q as int)) && p < q <= n && 3
            * elements_in(e@) <= q - p,
        Err(f) => goal == Err::<(ElementModel, int), Fault>(f@),
    }
}

fn parse_element<F: Fn(&FloatOp) -> Option<u64>>(toks: &Vec<Token>, p: usize, fl: &F) -> (r: Result<
    (Element, usize),
    Flaw,
>)
    requires
        steady(*fl),
        p <= toks@.len(),
    ensures
        element_read(r, element_at(token_models(toks@), p as int, unit(*fl)), p, toks@.len()),
    decreases toks@.len() - p, 0int,
{
    let n: usize = toks.len();
    let kind = match ident_at(toks, p) {
        Some(s) => s,
        None => {
            return Err(Flaw { at: p, wanted: "an element" });
        },
    };
    if !is_sign(toks, p + 1, Sign::LBrace) {
        return Err(Flaw { at: p + 1, wanted: "`{`" });
    }
    match parse_body(toks, p + 2, true, fl) {
        Err(f) => Err(f),
        Ok((b, q)) => {
            let e = Element::new(copy(kind.as_str()), b.props, b.callbacks, b.children);
            Ok((e, q))
        },
    }
}

fn parse_block<F: Fn(&FloatOp) -> Option<u64>>(
    toks: &Vec<Token>,
    p: usize,
    kind: &str,
    key: &str,
    fl: &F,
) -> (r: Result<(Element, usize), Flaw>)
    requires
        steady(*fl),
        p < toks@.len(),
    ensures
        element_read(
            r,
            block_at(token_models(toks@), p as int, kind@, key@, unit(*fl)),
            p,
            toks@.len(),
        ),
    decreases toks@.len() - p, 0int,
{
    let n: usize = toks.len();
    if !is_sign(toks, p + 1, Sign::LParen) {
        return Err(Flaw { at: p + 1, wanted: "`(`" });
    }
    if p + 2 >= n {
        return Err(Flaw { at: p + 2, wanted: "a binding" });
    }
    assert(token_models(toks@)[p + 2] == toks@[p + 2]@);
    let path = match &toks[p + 2] {
        Token::Binding(s) => s,
        _ => {
            return Err(Flaw { at: p + 2, wanted: "a binding" });
        },
    };
    if !is_sign(toks, p + 3, Sign::RParen) {
        return Err(Flaw { at: p + 3, wanted: "`)`" });
    }
    if !is_sign(toks, p + 4, Sign::LBrace) {
        return Err(Flaw { at: p + 4, wanted: "`{`" });
    }
    match parse_body(toks, p + 5, false, fl) {
        Err(f) => Err(f),
        Ok((b, q)) => {
            let mut element_bindings: Vec<(String, String)> = Vec::new();
            element_bindings.push((copy(key), copy(path.as_str())));
            let e = Element {
                kind: copy(kind),
                props: Vec::new(),
                callbacks: Vec::new(),
                children: b.children,
                element_bindings,
            };
            proof {
                assert(e@.props =~= Seq::empty());
                assert(e@.callbacks =~= Seq::empty());
                assert(e@.children =~= element_list(b.children@));
                assert(e@.bindings =~= seq![(key@, path@)]);
            }
            Ok((e, q))
        },
    }
}

fn parse_body<F: Fn(&FloatOp) -> Option<u64>>(toks: &Vec<Token>, from: usize, full: bool, fl: &F) -> (r: Result<
    (Parts, usize),
    Flaw,
>)
    requires
        steady(*fl),
        from <= toks@.len(),
    ensures
        match r {
            Ok((b, q)) => body_at(token_models(toks@), from as int, no_body(), full, unit(*fl)) == Ok::<
                (Body, int),
                Fault,
            >((b.model(), q as int)) && from < q <= toks@.len() && 3 * elements_in_all(
                element_list(b.children@),
                b.children@.len() as int,
            ) + 1 <= q - from,
            Err(f) => body_at(token_models(toks@), from as int, no_body(), full, unit(*fl)) == Err::<
                (Body, int),
                Fault,
            >(f@),
        },
    decreases toks@.len() - from, 1int,
{
    let n: usize = toks.len();
    let ghost t = token_models(toks@);
    let ghost goal = body_at(t, from as int, no_body(), full, unit(*fl));
    let mut b = Parts { props: Vec::new(), callbacks: Vec::new(), children: Vec::new() };
    let mut p: usize = from;
    proof {
        assert(b.model().props =~= Seq::empty());
        assert(b.model().callbacks =~= Seq::empty());
        assert(b.model().children =~= Seq::empty());
    }
    loop
        invariant
            steady(*fl),
            n == toks@.len(),
            t == token_models(toks@),
            from <= p <= n,
            goal == body_at(t, from as int, no_body(), full, unit(*fl)),
            goal == body_at(t, p as int, b.model(), full, unit(*fl)),
            3 * elements_in_all(element_list(b.children@), b.children@.len() as int) <= p - from,
        decreases n - p,
    {
        if p >= n {
            return Err(
                Flaw {
                    at: p,
                    wanted: if full {
                        "an entry or `}`"
                    } else {
                        "an element or `}`"
                    },
                },
            );
        }
        assert(t[p as int] == toks@[p as int]@);
        let ghost was = b.model();
        let mut child: Option<Element> = None;
        match &toks[p] {
            Token::RBrace => {
                return Ok((b, p + 1));
            },
            Token::If => match parse_block(toks, p, "If", "cond", fl) {
                Err(f) => {
                    return Err(f);
                },
                Ok((e, q)) => {
                    child = Some(e);
                    p = q;
                },
            },
            Token::For => match parse_block(toks, p, "For", "items", fl) {
                Err(f) => {
                    return Err(f);
                },
                Ok((e, q)) => {
                    child = Some(e);
                    p = q;
                },
            },
            Token::On => {
                if !full {
                    return Err(Flaw { at: p, wanted: "an element" });
                }
                match parse_callback(toks, p, fl) {
                    Err(f) => {
                        return Err(f);
                    },
                    Ok((c, q)) => {
                        let ghost m = c@;
                        b.callbacks.push(c);
                        assert(callback_list(b.callbacks@) =~= was.callbacks.push(m));
                        p = q;
                    },
                }
            },
            Token::Ident(key) => {
                if full && is_sign(toks, p + 1, Sign::Colon) {
                    match parse_prop(toks, p, key.as_str(), fl) {
                        Err(f) => {
                            return Err(f);
                        },
                        Ok((x, q)) => {
                            let ghost m = x@;
                            b.props.push(x);
                            assert(prop_list(b.props@) =~= was.props.push(m));
                            p = q;
                        },
                    }
                } else {
                    match parse_element(toks, p, fl) {
                        Err(f) => {
                            return Err(f);
                        },
                        Ok((e, q)) => {
                            child = Some(e);
                            p = q;
                        },
                    }
                }
            },
            _ => {
                return Err(
                    Flaw {
                        at: p,
                        wanted: if full {
                            "an entry or `}`"
                        } else {
                            "an element or `}`"
                        },
                    },
                );
            },
        }
        match child {
            Some(e) => {
                let ghost m = e@;
                b.children.push(e);
                proof {
                    assert(element_list(b.children@) =~= was.children.push(m));
                    lemma_elements_push(was.children, m);
                }
            },
            None => {},
        }
    }
}

/// Parses tokens as one element with nothing behind it.
pub fn parse_root<F: Fn(&FloatOp) -> Option<u64>>(toks: &Vec<Token>, fl: &F) -> (r: Result<Element, Flaw>)
    requires
        steady(*fl),
    ensures
        match r {
            Ok(e) => root_of(token_models(toks@), unit(*fl)) == Ok::<ElementModel, Fault>(e@) && 3
                * elements_in(e@) <= toks@.len(),
            Err(f) => root_of(token_models(toks@), unit(*fl)) == Err::<ElementModel, Fault>(f@),
        },
{
    match parse_element(toks, 0, fl) {
        Err(f) => Err(f),
        Ok((e, q)) => {
            if q == toks.len() {
                Ok(e)
            } else {
                Err(Flaw { at: q, wanted: "the end" })
            }
        },
    }
}

} // verus!
