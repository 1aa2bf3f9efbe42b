//! Binding expressions: a small language of keys, literals, arithmetic, comparison and negation,
//! parsed from text and evaluated against the state store.
use vstd::prelude::*;

use crate::float::{
    ask, bits, double, eq32, eq64, equal, equal_single, less, lt64, neg32, neg64, negate, negate_single,
    steady, unit, widen, FloatOp, FloatQuery, Unit,
};
use crate::store::Store;
use crate::text::{
    alphabetic, chars_of, code, copy, integer64, is_digit, numeric, parse_i64, same, text_of, trim,
    trim_end, trim_start,
};
use crate::value::{value_same, Value, ValueModel};

verus! {

/// A binary operator.
#[derive(Debug, Clone, Copy, PartialEq, Eq, Structural)]
pub enum BinOp {
    Add,
    Sub,
    Mul,
    Div,
    Gt,
    Lt,
    Eq,
}

/// A unary operator.
#[derive(Debug, Clone, Copy, PartialEq, Eq, Structural)]
pub enum UnOp {
    /// Logical not (`!`).
    Not,
    /// Arithmetic negation (`-`).
    Neg,
}

/// A parsed binding expression.
#[derive(Debug)]
pub enum Expr {
    /// A value written out.
    Literal(Value),
    /// The value of a state key, bare or dotted.
    Key(String),
    /// Left operand, operator, right operand.
    Bin(BinOp, Box<Expr>, Box<Expr>),
    /// Operator, operand.
    Un(UnOp, Box<Expr>),
}

/// An [`Expr`] as mathematics.
pub enum ExprModel {
    Literal(ValueModel),
    Key(Seq<char>),
    Bin(BinOp, Box<ExprModel>, Box<ExprModel>),
    Un(UnOp, Box<ExprModel>),
}

/// The mathematical content of an expression.
pub open spec fn expr_model(e: Expr) -> ExprModel
    decreases e,
{
    match e {
        Expr::Literal(v) => ExprModel::Literal(v@),
        Expr::Key(k) => ExprModel::Key(k@),
        Expr::Bin(op, l, r) => ExprModel::Bin(op, Box::new(expr_model(*l)), Box::new(expr_model(*r))),
        Expr::Un(op, x) => ExprModel::Un(op, Box::new(expr_model(*x))),
    }
}

impl View for Expr {
    type V = ExprModel;

    open spec fn view(&self) -> ExprModel {
        expr_model(*self)
    }
}

impl Clone for Expr {
    fn clone(&self) -> (r: Expr)
        ensures
            r@ == self@,
        decreases self,
    {
        match self {
            Expr::Literal(v) => Expr::Literal(v.clone()),
            Expr::Key(k) => Expr::Key(copy(k.as_str())),
            Expr::Bin(op, l, r) => {
                let a: Expr = (&**l).clone();
                let b: Expr = (&**r).clone();
                Expr::Bin(*op, Box::new(a), Box::new(b))
            },
            Expr::Un(op, x) => {
                let a: Expr = (&**x).clone();
                Expr::Un(*op, Box::new(a))
            },
        }
    }
}

/// The same operators in the same places over equal literals and keys.
pub open spec fn expr_same(a: ExprModel, b: ExprModel) -> bool
    decreases a,
{
    match (a, b) {
        (ExprModel::Literal(x), ExprModel::Literal(y)) => value_same(x, y),
        (ExprModel::Key(x), ExprModel::Key(y)) => x == y,
        (ExprModel::Bin(p, l, r), ExprModel::Bin(q, m, s)) => p == q && expr_same(*l, *m) && expr_same(
            *r,
            *s,
        ),
        (ExprModel::Un(p, x), ExprModel::Un(q, y)) => p == q && expr_same(*x, *y),
        _ => false,
    }
}

impl Expr {
    /// Equality, with literals compared as values are.
    pub fn same_as(&self, other: &Expr) -> (r: bool)
        ensures
            r == expr_same(self@, other@),
        decreases self,
    {
        match (self, other) {
            (Expr::Literal(x), Expr::Literal(y)) => x.same_as(y),
            (Expr::Key(x), Expr::Key(y)) => same(x.as_str(), y.as_str()),
            (Expr::Bin(p, l, r), Expr::Bin(q, m, s)) => *p == *q && l.same_as(m) && r.same_as(s),
            (Expr::Un(p, x), Expr::Un(q, y)) => *p == *q && x.same_as(y),
            _ => false,
        }
    }
}

impl PartialEq for Expr {
    fn eq(&self, other: &Expr) -> (r: bool) {
        self.same_as(other)
    }
}

impl vstd::std_specs::cmp::PartialEqSpecImpl for Expr {
    open spec fn obeys_eq_spec() -> bool {
        true
    }

    open spec fn eq_spec(&self, other: &Expr) -> bool {
        expr_same(self@, other@)
    }
}

enum Tok {
    Num(u64),
    Int(i64),
    Str(String),
    Ident(String),
    Plus,
    Minus,
    Star,
    Slash,
    Gt,
    Lt,
    EqEq,
    Bang,
    LParen,
    RParen,
}

/// A token of a binding expression.
pub enum Lexeme {
    Num(u64),
    Int(i64),
    Str(Seq<char>),
    Ident(Seq<char>),
    Plus,
    Minus,
    Star,
    Slash,
    Gt,
    Lt,
    EqEq,
    Bang,
    LParen,
    RParen,
}

impl View for Tok {
    type V = Lexeme;

    closed spec fn view(&self) -> Lexeme {
        match *self {
            Tok::Num(b) => Lexeme::Num(b),
            Tok::Int(i) => Lexeme::Int(i),
            Tok::Str(s) => Lexeme::Str(s@),
            Tok::Ident(s) => Lexeme::Ident(s@),
            Tok::Plus => Lexeme::Plus,
            Tok::Minus => Lexeme::Minus,
            Tok::Star => Lexeme::Star,
            Tok::Slash => Lexeme::Slash,
            Tok::Gt => Lexeme::Gt,
            Tok::Lt => Lexeme::Lt,
            Tok::EqEq => Lexeme::EqEq,
            Tok::Bang => Lexeme::Bang,
            Tok::LParen => Lexeme::LParen,
            Tok::RParen => Lexeme::RParen,
        }
    }
}

spec fn lexemes(s: Seq<Tok>) -> Seq<Lexeme> {
    s.map_values(|t: Tok| t@)
}

/// A character that continues a name.
pub open spec fn names_on(c: char) -> bool {
    alphabetic(c) || numeric(c) || c == '_' || c == '.'
}

/// The end of the run of name characters that starts at `i`.
pub open spec fn name_end(s: Seq<char>, i: int) -> int
    decreases s.len() - i,
{
    if 0 <= i < s.len() && names_on(s[i]) {
        name_end(s, i + 1)
    } else {
        i
    }
}

/// The end of the run of digits, with at most one dot in it, that starts at `i`, and whether a
/// dot was in it.
pub open spec fn number_end(s: Seq<char>, i: int, dot: bool) -> (int, bool)
    decreases s.len() - i,
{
    if 0 <= i < s.len() && is_digit(s[i]) {
        number_end(s, i + 1, dot)
    } else if 0 <= i < s.len() && s[i] == '.' && !dot {
        number_end(s, i + 1, true)
    } else {
        (i, dot)
    }
}

/// The place of the next quote, or the end.
pub open spec fn quote_end(s: Seq<char>, i: int, quote: char) -> int
    decreases s.len() - i,
{
    if 0 <= i < s.len() && s[i] != quote {
        quote_end(s, i + 1, quote)
    } else {
        i
    }
}

/// The token of one character, for those that are tokens on their own.
pub open spec fn sign(c: char) -> Option<Lexeme> {
    if c == '+' {
        Some(Lexeme::Plus)
    } else if c == '-' {
        Some(Lexeme::Minus)
    } else if c == '*' {
        Some(Lexeme::Star)
    } else if c == '/' {
        Some(Lexeme::Slash)
    } else if c == '>' {
        Some(Lexeme::Gt)
    } else if c == '<' {
        Some(Lexeme::Lt)
    } else if c == '(' {
        Some(Lexeme::LParen)
    } else if c == ')' {
        Some(Lexeme::RParen)
    } else if c == '!' {
        Some(Lexeme::Bang)
    } else {
        None
    }
}

/// The number that a run of digits denotes: a double where there is a dot in it, an integer
/// otherwise; none where it does not fit.
pub open spec fn number(s: Seq<char>, dot: bool, fl: Unit) -> Option<Lexeme> {
    if dot {
        match fl(FloatQuery::Read { text: s }) {
            Some(b) => Some(Lexeme::Num(b)),
            None => None,
        }
    } else {
        match integer64(s) {
            Some(n) => Some(Lexeme::Int(n)),
            None => None,
        }
    }
}

/// The token at `i`, if there is one, and the place behind it. Characters outside the language
/// are passed over.
pub open spec fn token_at(s: Seq<char>, i: int, fl: Unit) -> (Option<Lexeme>, int) {
    let c = s[i];
    if c == ' ' || c == '\t' || c == '\n' || c == '\r' {
        (None, i + 1)
    } else if sign(c) is Some {
        (sign(c), i + 1)
    } else if c == '=' {
        if i + 1 < s.len() && s[i + 1] == '=' {
            (Some(Lexeme::EqEq), i + 2)
        } else {
            (None, i + 1)
        }
    } else if c == '"' || c == '\'' {
        let e = quote_end(s, i + 1, c);
        (
            Some(Lexeme::Str(s.subrange(i + 1, e))),
            if e < s.len() {
                e + 1
            } else {
                e
            },
        )
    } else if is_digit(c) {
        let (e, dot) = number_end(s, i, false);
        (number(s.subrange(i, e), dot, fl), e)
    } else if alphabetic(c) || c == '_' {
        let e = name_end(s, i);
        (Some(Lexeme::Ident(s.subrange(i, e))), e)
    } else {
        (None, i + 1)
    }
}

/// The tokens from `i` on.
pub open spec fn lexed(s: Seq<char>, i: int, fl: Unit) -> Seq<Lexeme>
    decreases s.len() - i,
{
    if i < 0 || i >= s.len() {
        Seq::empty()
    } else {
        let (t, j) = token_at(s, i, fl);
        let rest = if i < j <= s.len() {
            lexed(s, j, fl)
        } else {
            Seq::empty()
        };
        match t {
            Some(x) => seq![x] + rest,
            None => rest,
        }
    }
}

fn piece(cs: &Vec<char>, from: usize, to: usize) -> (r: String)
    requires
        from <= to <= cs@.len(),
    ensures
        r@ == cs@.subrange(from as int, to as int),
{
    let mut out: Vec<char> = Vec::new();
    let mut i: usize = from;
    while i < to
        invariant
            from <= i <= to <= cs@.len(),
            out@ == cs@.subrange(from as int, i as int),
        decreases to - i,
    {
        out.push(cs[i]);
        i += 1;
        assert(out@ =~= cs@.subrange(from as int, i as int));
    }
    text_of(&out)
}

fn digit_at(c: char) -> (r: bool)
    ensures
        r == is_digit(c),
{
    let x: u32 = code(c);
    48 <= x && x <= 57
}

fn lex_sign(c: char) -> (r: Option<Tok>)
    ensures
        match r {
            Some(t) => sign(c) == Some(t@),
            None => sign(c) is None,
        },
{
    if c == '+' {
        Some(Tok::Plus)
    } else if c == '-' {
        Some(Tok::Minus)
    } else if c == '*' {
        Some(Tok::Star)
    } else if c == '/' {
        Some(Tok::Slash)
    } else if c == '>' {
        Some(Tok::Gt)
    } else if c == '<' {
        Some(Tok::Lt)
    } else if c == '(' {
        Some(Tok::LParen)
    } else if c == ')' {
        Some(Tok::RParen)
    } else if c == '!' {
        Some(Tok::Bang)
    } else {
        None
    }
}

fn lex_quote(cs: &Vec<char>, i: usize, quote: char) -> (r: usize)
    requires
        i <= cs@.len(),
    ensures
        r == quote_end(cs@, i as int, quote),
        i <= r <= cs@.len(),
{
    let mut j: usize = i;
    while j < cs.len() && cs[j] != quote
        invariant
            i <= j <= cs@.len(),
            quote_end(cs@, i as int, quote) == quote_end(cs@, j as int, quote),
        decreases cs.len() - j,
    {
        j += 1;
    }
    j
}

fn lex_number(cs: &Vec<char>, i: usize) -> (r: (usize, bool))
    requires
        i < cs@.len(),
        is_digit(cs@[i as int]),
    ensures
        (r.0 as int, r.1) == number_end(cs@, i as int, false),
        i < r.0 <= cs@.len(),
{
    let n: usize = cs.len();
    let mut j: usize = i + 1;
    let mut dot = false;
    while j < n && (digit_at(cs[j]) || (cs[j] == '.' && !dot))
        invariant
            n == cs@.len(),
            i < j <= n,
            number_end(cs@, i as int, false) == number_end(cs@, j as int, dot),
        decreases cs.len() - j,
    {
        if cs[j] == '.' {
            dot = true;
        }
        j += 1;
    }
    (j, dot)
}

fn lex_name(cs: &Vec<char>, i: usize) -> (r: usize)
    requires
        i < cs@.len(),
        names_on(cs@[i as int]),
    ensures
        r == name_end(cs@, i as int),
        i < r <= cs@.len(),
{
    let n: usize = cs.len();
    let mut j: usize = i + 1;
    while j < n && (cs[j].is_alphabetic() || cs[j].is_numeric() || cs[j] == '_' || cs[j] == '.')
        invariant
            n == cs@.len(),
            i < j <= n,
            name_end(cs@, i as int) == name_end(cs@, j as int),
        decreases cs.len() - j,
    {
        j += 1;
    }
    j
}

fn lex<F: Fn(&FloatOp) -> Option<u64>>(src: &str, fl: &F) -> (r: Vec<Tok>)
    requires
        steady(*fl),
    ensures
        lexemes(r@) == lexed(src@, 0, unit(*fl)),
{
    let cs = chars_of(src);
    let mut toks: Vec<Tok> = Vec::new();
    let mut i: usize = 0;
    assert(lexemes(toks@) + lexed(src@, 0, unit(*fl)) =~= lexed(src@, 0, unit(*fl)));
    while i < cs.len()
        invariant
            steady(*fl),
            cs@ == src@,
            i <= cs@.len(),
            lexemes(toks@) + lexed(src@, i as int, unit(*fl)) == lexed(src@, 0, unit(*fl)),
        decreases cs.len() - i,
    {
        let ghost so_far = lexemes(toks@);
        let ghost at: int = i as int;
        let c: char = cs[i];
        let mut found: Option<Tok> = None;
        let one = lex_sign(c);
        if c == ' ' || c == '\t' || c == '\n' || c == '\r' {
            i += 1;
        } else if one.is_some() {
            found = one;
            i += 1;
        } else if c == '=' {
            if cs.len() - i > 1 && cs[i + 1] == '=' {
                found = Some(Tok::EqEq);
                i += 2;
            } else {
                i += 1;
            }
        } else if c == '"' || c == '\'' {
            let e: usize = lex_quote(&cs, i + 1, c);
            found = Some(Tok::Str(piece(&cs, i + 1, e)));
            i = if e < cs.len() {
                e + 1
            } else {
                e
            };
        } else if digit_at(c) {
            let (e, dot) = lex_number(&cs, i);
            let lit = piece(&cs, i, e);
            if dot {
                found = match ask(fl, &FloatOp::Read { text: lit }) {
                    Some(b) => Some(Tok::Num(b)),
                    None => None,
                };
            } else {
                found = match parse_i64(lit.as_str()) {
                    Some(n) => Some(Tok::Int(n)),
                    None => None,
                };
            }
            i = e;
        } else if c.is_alphabetic() || c == '_' {
            let e: usize = lex_name(&cs, i);
            found = Some(Tok::Ident(piece(&cs, i, e)));
            i = e;
        } else {
            i += 1;
        }
        proof {
            assert(token_at(src@, at, unit(*fl)).1 == i);
            assert(match found {
                Some(t) => token_at(src@, at, unit(*fl)).0 == Some(t@),
                None => token_at(src@, at, unit(*fl)).0 is None,
            });
        }
        let ghost rest = lexed(src@, i as int, unit(*fl));
        match found {
            Some(t) => {
                let ghost x = t@;
                toks.push(t);
                assert(lexemes(toks@) =~= so_far.push(x));
                assert(lexemes(toks@) + rest =~= so_far + lexed(src@, at, unit(*fl)));
            },
            None => {},
        }
    }
    assert(lexemes(toks@) + lexed(src@, i as int, unit(*fl)) =~= lexemes(toks@));
    toks
}

/// How tightly an operator binds: comparisons least, products most.
pub open spec fn level_op(t: Lexeme, level: nat) -> Option<BinOp> {
    if level == 0 {
        match t {
            Lexeme::Gt => Some(BinOp::Gt),
            Lexeme::Lt => Some(BinOp::Lt),
            Lexeme::EqEq => Some(BinOp::Eq),
            _ => None,
        }
    } else if level == 1 {
        match t {
            Lexeme::Plus => Some(BinOp::Add),
            Lexeme::Minus => Some(BinOp::Sub),
            _ => None,
        }
    } else {
        match t {
            Lexeme::Star => Some(BinOp::Mul),
            Lexeme::Slash => Some(BinOp::Div),
            _ => None,
        }
    }
}

/// Where a level stands in the descent from comparisons to operands.
pub open spec fn rung(level: nat) -> int {
    if level >= 3 {
        1
    } else {
        4 - level
    }
}

/// A chain of operands joined by operators of one level, grouped from the left. Level `3` is an
/// operand of a product: a negation or a primary.
pub open spec fn chain(t: Seq<Lexeme>, p: int, level: nat) -> Option<(ExprModel, int)>
    decreases t.len() - p, rung(level), 1int,
{
    if level >= 3 {
        negated(t, p)
    } else {
        match chain(t, p, level + 1) {
            Some((l, q)) => if p < q <= t.len() {
                chained(t, q, level, l)
            } else {
                None
            },
            None => None,
        }
    }
}

/// The rest of a chain whose left part is parsed.
pub open spec fn chained(t: Seq<Lexeme>, p: int, level: nat, l: ExprModel) -> Option<(ExprModel, int)>
    decreases t.len() - p, rung(level), 0int,
{
    if p < 0 || p >= t.len() {
        Some((l, p))
    } else {
        match level_op(t[p], level) {
            Some(op) => match chain(t, p + 1, level + 1) {
                Some((r, q)) => if p < q <= t.len() {
                    chained(t, q, level, ExprModel::Bin(op, Box::new(l), Box::new(r)))
                } else {
                    None
                },
                None => None,
            },
            None => Some((l, p)),
        }
    }
}

/// A negation of an operand, or a primary.
pub open spec fn negated(t: Seq<Lexeme>, p: int) -> Option<(ExprModel, int)>
    decreases t.len() - p, 0int, 1int,
{
    if p < 0 || p >= t.len() {
        None
    } else if t[p] is Bang || t[p] is Minus {
        match negated(t, p + 1) {
            Some((x, q)) => Some(
                (
                    ExprModel::Un(
                        if t[p] is Bang {
                            UnOp::Not
                        } else {
                            UnOp::Neg
                        },
                        Box::new(x),
                    ),
                    q,
                ),
            ),
            None => None,
        }
    } else {
        primary(t, p)
    }
}

/// A literal, a key or an expression in parentheses.
pub open spec fn primary(t: Seq<Lexeme>, p: int) -> Option<(ExprModel, int)>
    decreases t.len() - p, 0int, 0int,
{
    if p < 0 || p >= t.len() {
        None
    } else {
        match t[p] {
            Lexeme::Int(n) => Some((ExprModel::Literal(ValueModel::Int(n)), p + 1)),
            Lexeme::Num(b) => Some((ExprModel::Literal(ValueModel::Float(b)), p + 1)),
            Lexeme::Str(s) => Some((ExprModel::Literal(ValueModel::Text(s)), p + 1)),
            Lexeme::Ident(id) => Some(
                (
                    if id == "true"@ {
                        ExprModel::Literal(ValueModel::Bool(true))
                    } else if id == "false"@ {
                        ExprModel::Literal(ValueModel::Bool(false))
                    } else {
                        ExprModel::Key(id)
                    },
                    p + 1,
                ),
            ),
            Lexeme::LParen => match chain(t, p + 1, 0) {
                Some((x, q)) => if 0 <= q < t.len() && t[q] is RParen {
                    Some((x, q + 1))
                } else {
                    None
                },
                None => None,
            },
            _ => None,
        }
    }
}

/// The expression that a text stands for; a text that is none is taken as one key.
pub open spec fn parsed(src: Seq<char>, fl: Unit) -> ExprModel {
    let t = lexed(src, 0, fl);
    match chain(t, 0, 0) {
        Some((e, q)) => if q == t.len() {
            e
        } else {
            ExprModel::Key(trim_end(trim_start(src)))
        },
        None => ExprModel::Key(trim_end(trim_start(src))),
    }
}

fn op_at(t: &Tok, level: u8) -> (r: Option<BinOp>)
    ensures
        r == level_op(t@, level as nat),
{
    if level == 0 {
        match t {
            Tok::Gt => Some(BinOp::Gt),
            Tok::Lt => Some(BinOp::Lt),
            Tok::EqEq => Some(BinOp::Eq),
            _ => None,
        }
    } else if level == 1 {
        match t {
            Tok::Plus => Some(BinOp::Add),
            Tok::Minus => Some(BinOp::Sub),
            _ => None,
        }
    } else {
        match t {
            Tok::Star => Some(BinOp::Mul),
            Tok::Slash => Some(BinOp::Div),
            _ => None,
        }
    }
}

spec fn agrees(r: Option<(Expr, usize)>, m: Option<(ExprModel, int)>, p: usize, len: nat) -> bool {
    match r {
        Some(x) => m == Some((x.0@, x.1 as int)) && p < x.1 <= len,
        None => m is None,
    }
}

fn parse_chain(toks: &Vec<Tok>, p: usize, level: u8) -> (r: Option<(Expr, usize)>)
    requires
        p <= toks@.len(),
        level <= 3,
    ensures
        agrees(r, chain(lexemes(toks@), p as int, level as nat), p, toks@.len()),
    decreases toks@.len() - p, rung(level as nat), 1int,
{
    if level == 3 {
        return parse_negated(toks, p);
    }
    let ghost t = lexemes(toks@);
    let ghost goal = chain(t, p as int, level as nat);
    match parse_chain(toks, p, level + 1) {
        None => None,
        Some((first, q0)) => {
            let mut left = first;
            let mut q: usize = q0;
            while q < toks.len()
                invariant_except_break
                    chained(t, q as int, level as nat, left@) == goal,
                invariant
                    t == lexemes(toks@),
                    goal == chain(t, p as int, level as nat),
                    level < 3,
                    p < q <= toks@.len(),
                ensures
                    goal == Some((left@, q as int)),
                decreases toks@.len() - q,
            {
                assert(t[q as int] == toks@[q as int]@);
                match op_at(&toks[q], level) {
                    None => {
                        break;
                    },
                    Some(op) => {
                        match parse_chain(toks, q + 1, level + 1) {
                            None => {
                                return None;
                            },
                            Some((right, next)) => {
                                left = Expr::Bin(op, Box::new(left), Box::new(right));
                                q = next;
                            },
                        }
                    },
                }
            }
            Some((left, q))
        },
    }
}

fn parse_negated(toks: &Vec<Tok>, p: usize) -> (r: Option<(Expr, usize)>)
    requires
        p <= toks@.len(),
    ensures
        agrees(r, negated(lexemes(toks@), p as int), p, toks@.len()),
    decreases toks@.len() - p, 0int, 1int,
{
    if p >= toks.len() {
        return None;
    }
    assert(lexemes(toks@)[p as int] == toks@[p as int]@);
    match &toks[p] {
        Tok::Bang => match parse_negated(toks, p + 1) {
            Some((x, q)) => Some((Expr::Un(UnOp::Not, Box::new(x)), q)),
            None => None,
        },
        Tok::Minus => match parse_negated(toks, p + 1) {
            Some((x, q)) => Some((Expr::Un(UnOp::Neg, Box::new(x)), q)),
            None => None,
        },
        _ => parse_primary(toks, p),
    }
}

fn parse_primary(toks: &Vec<Tok>, p: usize) -> (r: Option<(Expr, usize)>)
    requires
        p <= toks@.len(),
    ensures
        agrees(r, primary(lexemes(toks@), p as int), p, toks@.len()),
    decreases toks@.len() - p, 0int, 0int,
{
    if p >= toks.len() {
        return None;
    }
    assert(lexemes(toks@)[p as int] == toks@[p as int]@);
    match &toks[p] {
        Tok::Int(n) => Some((Expr::Literal(Value::Int(*n)), p + 1)),
        Tok::Num(b) => Some((Expr::Literal(Value::Float(*b)), p + 1)),
        Tok::Str(s) => Some((Expr::Literal(Value::Text(copy(s.as_str()))), p + 1)),
        Tok::Ident(id) => Some(
            (
                if same(id.as_str(), "true") {
                    Expr::Literal(Value::Bool(true))
                } else if same(id.as_str(), "false") {
                    Expr::Literal(Value::Bool(false))
                } else {
                    Expr::Key(copy(id.as_str()))
                },
                p + 1,
            ),
        ),
        Tok::LParen => match parse_chain(toks, p + 1, 0) {
            Some((x, q)) => {
                if q >= toks.len() {
                    return None;
                }
                assert(lexemes(toks@)[q as int] == toks@[q as int]@);
                match &toks[q] {
                    Tok::RParen => Some((x, q + 1)),
                    _ => None,
                }
            },
            None => None,
        },
        _ => None,
    }
}

impl Expr {
    /// Parses a binding expression. A text outside the language becomes one key, without the
    /// white space around it.
    pub fn parse<F: Fn(&FloatOp) -> Option<u64>>(src: &str, fl: &F) -> (r: Expr)
        requires
            steady(*fl),
        ensures
            r@ == parsed(src@, unit(*fl)),
    {
        let toks = lex(src, fl);
        match parse_chain(&toks, 0, 0) {
            Some((e, q)) => {
                if q == toks.len() {
                    return e;
                }
            },
            None => {},
        }
        Expr::Key(trim(src))
    }
}

/// What evaluating an expression comes to.
pub enum Outcome {
    /// An integer result does not fit 64 bits.
    Overflow,
    /// A key is unset, or an operation is not defined for its operands.
    Nothing,
    /// A value.
    Is(ValueModel),
}

/// The value counts as true.
pub open spec fn truthy(v: ValueModel) -> bool {
    match v {
        ValueModel::Bool(b) => b,
        ValueModel::Int(n) => n != 0,
        ValueModel::Float(f) => !eq64(f, 0),
        ValueModel::Px(p) => !eq32(p, 0),
        ValueModel::Text(s) => s.len() > 0,
        ValueModel::List(l) => l.len() > 0,
        ValueModel::Color(_) => true,
    }
}

/// A number as a double.
pub open spec fn as_double(v: ValueModel, fl: Unit) -> Option<u64> {
    match v {
        ValueModel::Int(n) => Some(bits(fl(FloatQuery::FromInt { value: n }))),
        ValueModel::Float(f) => Some(f),
        ValueModel::Px(p) => Some(bits(fl(FloatQuery::Widen { single: p }))),
        _ => None,
    }
}

/// An integer, where it fits 64 bits.
pub open spec fn fitted(i: int) -> Outcome {
    if i64::MIN <= i <= i64::MAX {
        Outcome::Is(ValueModel::Int(i as i64))
    } else {
        Outcome::Overflow
    }
}

/// The quotient of two integers, rounded towards zero.
pub open spec fn quotient(a: int, b: int) -> int {
    let m = if a < 0 {
        -a
    } else {
        a
    };
    let n = if b < 0 {
        -b
    } else {
        b
    };
    if (a < 0) == (b < 0) {
        m / n
    } else {
        -(m / n)
    }
}

/// What arithmetic on two integers comes to.
pub open spec fn integer_op(op: BinOp, a: i64, b: i64) -> Outcome {
    match op {
        BinOp::Add => fitted(a + b),
        BinOp::Sub => fitted(a - b),
        BinOp::Mul => fitted(a * b),
        _ => if b == 0 {
            Outcome::Nothing
        } else {
            fitted(quotient(a as int, b as int))
        },
    }
}

/// What arithmetic on two doubles comes to.
pub open spec fn double_op(op: BinOp, a: u64, b: u64, fl: Unit) -> u64 {
    match op {
        BinOp::Add => bits(fl(FloatQuery::Add { a, b })),
        BinOp::Sub => bits(fl(FloatQuery::Sub { a, b })),
        BinOp::Mul => bits(fl(FloatQuery::Mul { a, b })),
        _ => bits(fl(FloatQuery::Div { a, b })),
    }
}

/// What a binary operator makes of two values. Integers stay integers in arithmetic; other
/// numbers become doubles. Numbers compare as doubles, other values compare by content.
pub open spec fn combined(op: BinOp, l: ValueModel, r: ValueModel, fl: Unit) -> Outcome {
    match op {
        BinOp::Gt | BinOp::Lt => match (as_double(l, fl), as_double(r, fl)) {
            (Some(a), Some(b)) => Outcome::Is(
                ValueModel::Bool(
                    if op == BinOp::Lt {
                        lt64(a, b)
                    } else {
                        lt64(b, a)
                    },
                ),
            ),
            _ => Outcome::Nothing,
        },
        BinOp::Eq => match (as_double(l, fl), as_double(r, fl)) {
            (Some(a), Some(b)) => Outcome::Is(ValueModel::Bool(eq64(a, b))),
            _ => Outcome::Is(ValueModel::Bool(value_same(l, r))),
        },
        _ => match (l, r) {
            (ValueModel::Int(a), ValueModel::Int(b)) => integer_op(op, a, b),
            _ => match (as_double(l, fl), as_double(r, fl)) {
                (Some(a), Some(b)) => Outcome::Is(ValueModel::Float(double_op(op, a, b, fl))),
                _ => Outcome::Nothing,
            },
        },
    }
}

/// What a unary operator makes of a value.
pub open spec fn turned(op: UnOp, v: ValueModel) -> Outcome {
    match op {
        UnOp::Not => Outcome::Is(ValueModel::Bool(!truthy(v))),
        UnOp::Neg => match v {
            ValueModel::Int(n) => fitted(-n),
            ValueModel::Float(f) => Outcome::Is(ValueModel::Float(neg64(f))),
            ValueModel::Px(p) => Outcome::Is(ValueModel::Px(neg32(p))),
            _ => Outcome::Nothing,
        },
    }
}

/// What an expression comes to in a state.
pub open spec fn evaluated(e: ExprModel, state: Map<Seq<char>, ValueModel>, fl: Unit) -> Outcome
    decreases e,
{
    match e {
        ExprModel::Literal(v) => Outcome::Is(v),
        ExprModel::Key(k) => if state.dom().contains(k) {
            Outcome::Is(state[k])
        } else {
            Outcome::Nothing
        },
        ExprModel::Un(op, x) => match evaluated(*x, state, fl) {
            Outcome::Is(v) => turned(op, v),
            o => o,
        },
        ExprModel::Bin(op, l, r) => match evaluated(*l, state, fl) {
            Outcome::Is(a) => match evaluated(*r, state, fl) {
                Outcome::Is(b) => combined(op, a, b, fl),
                o => o,
            },
            o => o,
        },
    }
}

fn is_truthy(v: &Value) -> (r: bool)
    ensures
        r == truthy(v@),
{
    match v {
        Value::Bool(b) => *b,
        Value::Int(n) => *n != 0,
        Value::Float(f) => !equal(*f, 0),
        Value::Px(p) => !equal_single(*p, 0),
        Value::Text(s) => {
            let cs = chars_of(s.as_str());
            cs.len() > 0
        },
        Value::List(l) => l.len() > 0,
        Value::Color(_) => true,
    }
}

fn as_num<F: Fn(&FloatOp) -> Option<u64>>(v: &Value, fl: &F) -> (r: Option<u64>)
    requires
        steady(*fl),
    ensures
        r == as_double(v@, unit(*fl)),
{
    match v {
        Value::Int(n) => Some(double(fl, &FloatOp::FromInt { value: *n })),
        Value::Float(f) => Some(*f),
        Value::Px(p) => Some(widen(fl, *p)),
        _ => None,
    }
}

/// What evaluating an expression came to.
#[derive(Debug)]
pub enum Evaluated {
    /// An integer result does not fit 64 bits.
    Overflow,
    /// A key is unset, or an operation is not defined for its operands.
    Nothing,
    /// A value.
    Is(Value),
}

impl View for Evaluated {
    type V = Outcome;

    open spec fn view(&self) -> Outcome {
        match *self {
            Evaluated::Overflow => Outcome::Overflow,
            Evaluated::Nothing => Outcome::Nothing,
            Evaluated::Is(v) => Outcome::Is(v@),
        }
    }
}

fn fit(i: i128) -> (r: Evaluated)
    ensures
        r@ == fitted(i as int),
{
    if -0x8000_0000_0000_0000 <= i && i <= 0x7FFF_FFFF_FFFF_FFFF {
        Evaluated::Is(Value::Int(i as i64))
    } else {
        Evaluated::Overflow
    }
}

fn divide(a: i64, b: i64) -> (r: i128)
    requires
        b != 0,
    ensures
        r == quotient(a as int, b as int),
{
    let m: u128 = if a < 0 {
        (-(a as i128)) as u128
    } else {
        a as u128
    };
    let n: u128 = if b < 0 {
        (-(b as i128)) as u128
    } else {
        b as u128
    };
    let q: u128 = m / n;
    proof {
        vstd::arithmetic::div_mod::lemma_div_is_ordered_by_denominator(m as int, 1, n as int);
    }
    if (a < 0) == (b < 0) {
        q as i128
    } else {
        -(q as i128)
    }
}

fn multiply(a: i64, b: i64) -> (r: i128)
    ensures
        r == a * b,
{
    assert(-0x4000_0000_0000_0000_0000_0000_0000_0000 <= a * b
        <= 0x4000_0000_0000_0000_0000_0000_0000_0000) by (nonlinear_arith)
        requires
            -0x8000_0000_0000_0000 <= a <= 0x7FFF_FFFF_FFFF_FFFF,
            -0x8000_0000_0000_0000 <= b <= 0x7FFF_FFFF_FFFF_FFFF,
    ;
    (a as i128) * (b as i128)
}

fn int_bin(op: BinOp, a: i64, b: i64) -> (r: Evaluated)
    ensures
        r@ == integer_op(op, a, b),
{
    match op {
        BinOp::Add => fit((a as i128) + (b as i128)),
        BinOp::Sub => fit((a as i128) - (b as i128)),
        BinOp::Mul => fit(multiply(a, b)),
        _ => {
            if b == 0 {
                Evaluated::Nothing
            } else {
                fit(divide(a, b))
            }
        },
    }
}

fn eval_bin<F: Fn(&FloatOp) -> Option<u64>>(op: BinOp, l: &Value, r: &Value, fl: &F) -> (res:
    Evaluated)
    requires
        steady(*fl),
    ensures
        res@ == combined(op, l@, r@, unit(*fl)),
{
    match op {
        BinOp::Gt | BinOp::Lt => match (as_num(l, fl), as_num(r, fl)) {
            (Some(a), Some(b)) => Evaluated::Is(
                Value::Bool(
                    if op == BinOp::Lt {
                        less(a, b)
                    } else {
                        less(b, a)
                    },
                ),
            ),
            _ => Evaluated::Nothing,
        },
        BinOp::Eq => match (as_num(l, fl), as_num(r, fl)) {
            (Some(a), Some(b)) => Evaluated::Is(Value::Bool(equal(a, b))),
            _ => Evaluated::Is(Value::Bool(l.same_as(r))),
        },
        _ => {
            match (l, r) {
                (Value::Int(a), Value::Int(b)) => {
                    return int_bin(op, *a, *b);
                },
                _ => {},
            }
            match (as_num(l, fl), as_num(r, fl)) {
                (Some(a), Some(b)) => Evaluated::Is(
                    Value::Float(
                        match op {
                            BinOp::Add => double(fl, &FloatOp::Add { a, b }),
                            BinOp::Sub => double(fl, &FloatOp::Sub { a, b }),
                            BinOp::Mul => double(fl, &FloatOp::Mul { a, b }),
                            _ => double(fl, &FloatOp::Div { a, b }),
                        },
                    ),
                ),
                _ => Evaluated::Nothing,
            }
        },
    }
}

fn eval_un(op: UnOp, v: &Value) -> (r: Evaluated)
    ensures
        r@ == turned(op, v@),
{
    match op {
        UnOp::Not => Evaluated::Is(Value::Bool(!is_truthy(v))),
        UnOp::Neg => match v {
            Value::Int(n) => fit(-(*n as i128)),
            Value::Float(f) => Evaluated::Is(Value::Float(negate(*f))),
            Value::Px(p) => Evaluated::Is(Value::Px(negate_single(*p))),
            _ => Evaluated::Nothing,
        },
    }
}

impl Expr {
    /// What the expression comes to in `store`.
    pub fn evaluate<F: Fn(&FloatOp) -> Option<u64>>(&self, store: &Store, fl: &F) -> (r: Evaluated)
        requires
            steady(*fl),
        ensures
            r@ == evaluated(self@, store@, unit(*fl)),
        decreases self,
    {
        match self {
            Expr::Literal(v) => Evaluated::Is(v.clone()),
            Expr::Key(k) => match store.get(k.as_str()) {
                Some(v) => Evaluated::Is(v),
                None => Evaluated::Nothing,
            },
            Expr::Un(op, e) => match e.evaluate(store, fl) {
                Evaluated::Is(v) => eval_un(*op, &v),
                o => o,
            },
            Expr::Bin(op, l, r) => match l.evaluate(store, fl) {
                Evaluated::Is(a) => match r.evaluate(store, fl) {
                    Evaluated::Is(b) => eval_bin(*op, &a, &b, fl),
                    o => o,
                },
                o => o,
            },
        }
    }

    /// The value of the expression in `store`, or `None` where a key is unset or an operation is
    /// not defined for its operands. No integer result may leave the range of 64 bits.
    pub fn eval<F: Fn(&FloatOp) -> Option<u64>>(&self, store: &Store, fl: &F) -> (r: Option<Value>)
        requires
            steady(*fl),
            !(evaluated(self@, store@, unit(*fl)) is Overflow),
        ensures
            match r {
                Some(v) => evaluated(self@, store@, unit(*fl)) == Outcome::Is(v@),
                None => evaluated(self@, store@, unit(*fl)) is Nothing,
            },
    {
        match self.evaluate(store, fl) {
            Evaluated::Is(v) => Some(v),
            _ => None,
        }
    }
}

/// What a binding comes to in a state.
pub open spec fn bound(expr: Seq<char>, state: Map<Seq<char>, ValueModel>, fl: Unit) -> Outcome {
    evaluated(parsed(expr, fl), state, fl)
}

/// What a binding comes to in `store`.
pub fn eval_binding<F: Fn(&FloatOp) -> Option<u64>>(expr: &str, store: &Store, fl: &F) -> (r: Evaluated)
    requires
        steady(*fl),
    ensures
        r@ == bound(expr@, store@, unit(*fl)),
{
    let e = Expr::parse(expr, fl);
    e.evaluate(store, fl)
}

/// The text is one name: a letter or an underscore, with letters, digits, underscores and dots
/// behind it.
pub open spec fn one_name(s: Seq<char>) -> bool {
    &&& s.len() > 0
    &&& alphabetic(s[0]) || s[0] == '_'
    &&& sign(s[0]) is None && !is_digit(s[0])
    &&& s[0] != ' ' && s[0] != '\t' && s[0] != '\n' && s[0] != '\r'
    &&& s[0] != '=' && s[0] != '"' && s[0] != '\''
    &&& forall|i: int| 0 <= i < s.len() ==> names_on(#[trigger] s[i])
}

proof fn lemma_name_end(s: Seq<char>, i: int)
    requires
        0 <= i <= s.len(),
        forall|k: int| 0 <= k < s.len() ==> names_on(#[trigger] s[k]),
    ensures
        name_end(s, i) == s.len(),
    decreases s.len() - i,
{
    if i < s.len() {
        lemma_name_end(s, i + 1);
    }
}

/// A bare name, dotted or not, is the key of that name; only `true` and `false` are literals.
pub proof fn law_bare_name_is_key(s: Seq<char>, fl: Unit)
    requires
        one_name(s),
    ensures
        parsed(s, fl) == if s == "true"@ {
            ExprModel::Literal(ValueModel::Bool(true))
        } else if s == "false"@ {
            ExprModel::Literal(ValueModel::Bool(false))
        } else {
            ExprModel::Key(s)
        },
{
    lemma_name_end(s, 0);
    assert(s.subrange(0, s.len() as int) =~= s);
    let t = lexed(s, 0, fl);
    assert(lexed(s, s.len() as int, fl) =~= Seq::empty());
    assert(t =~= seq![Lexeme::Ident(s)]);
    reveal_with_fuel(chain, 5);
    let e = primary(t, 0)->0;
    assert(negated(t, 0) == Some((e.0, 1int)));
    assert(chain(t, 0, 3) == Some((e.0, 1int)));
    assert(chain(t, 0, 2) == Some((e.0, 1int)));
    assert(chain(t, 0, 1) == Some((e.0, 1int)));
    assert(chain(t, 0, 0) == Some((e.0, 1int)));
}

} // verus!
