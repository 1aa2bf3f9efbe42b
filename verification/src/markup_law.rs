//! What the tokens and the characters of the markup stand for.
use vstd::prelude::*;

use crate::dsl_syntax::{
    args_at, block_at, body_at, callback_at, element_at, literal_of, no_body, prop_at, root_of, Body,
    CallbackModel, ElementModel, Fault, PropModel, PropValueModel,
};
use crate::dsl_token::{
    continues_name, lexed, line_end, name_end, path_end, starts_name, string_end, unescaped,
    TokenModel,
};
use crate::expr_law::{answer, excerpt};
use crate::float::{FloatQuery, Unit};
use crate::place_law::said;
use crate::scan::{hex_value, is_hex};
use crate::swiftui_law::rgba;
use crate::text::{is_digit, signed_decimal};
use crate::text_law::law_integer_is_read_back;
use crate::value::ValueModel;

verus! {

/// What stands at the head of a piece of markup.
pub enum Head {
    /// An element of a kind.
    Kind(Seq<char>),
    /// A condition on a path.
    If(Seq<char>),
    /// A repetition over a path.
    For(Seq<char>),
}

/// A piece of markup.
pub struct Markup {
    pub head: Head,
    pub entries: Seq<Entry>,
}

/// What can stand between the braces of a piece of markup.
pub enum Entry {
    Prop { key: Seq<char>, value: TokenModel },
    Handler { event: Seq<char>, action: Seq<char>, args: Seq<TokenModel> },
    Child(Markup),
}

/// Every value is one, and conditions and repetitions hold nothing but markup.
pub open spec fn writable(m: Markup, fl: Unit) -> bool
    decreases m,
{
    forall|i: int| 0 <= i < m.entries.len() ==> entry_writable(#[trigger] m.entries[i], m.head is Kind, fl)
}

/// The entry can stand in an element, or in a block.
pub open spec fn entry_writable(e: Entry, full: bool, fl: Unit) -> bool
    decreases e,
{
    match e {
        Entry::Prop { value, .. } => full && (value is Binding || literal_of(value, fl) is Some),
        Entry::Handler { args, .. } => full && forall|i: int|
            0 <= i < args.len() ==> literal_of(#[trigger] args[i], fl) is Some,
        Entry::Child(m) => writable(m, fl),
    }
}

/// The tokens of arguments, with commas between them.
pub open spec fn spelled_args(args: Seq<TokenModel>, i: int) -> Seq<TokenModel>
    decreases args.len() - i,
{
    if i < 0 || i >= args.len() {
        seq![TokenModel::RParen]
    } else if i + 1 < args.len() {
        seq![args[i], TokenModel::Comma] + spelled_args(args, i + 1)
    } else {
        seq![args[i], TokenModel::RParen]
    }
}

/// The tokens of an entry.
pub open spec fn spelled_entry(e: Entry) -> Seq<TokenModel>
    decreases e, 0int,
{
    match e {
        Entry::Prop { key, value } => seq![
            TokenModel::Ident(key),
            TokenModel::Colon,
            value,
            TokenModel::Semicolon,
        ],
        Entry::Handler { event, action, args } => seq![
            TokenModel::On,
            TokenModel::Ident(event),
            TokenModel::Colon,
            TokenModel::Ident(action),
            TokenModel::LParen,
        ] + spelled_args(args, 0) + seq![TokenModel::Semicolon],
        Entry::Child(m) => spelled(m),
    }
}

/// The tokens of entries from the `i`-th on, up to the closing brace.
pub open spec fn spelled_from(m: Markup, i: int) -> Seq<TokenModel>
    decreases m, m.entries.len() - i,
{
    if i < 0 || i >= m.entries.len() {
        seq![TokenModel::RBrace]
    } else {
        spelled_entry(m.entries[i]) + spelled_from(m, i + 1)
    }
}

/// The tokens before the entries of a piece of markup.
pub open spec fn opening(h: Head) -> Seq<TokenModel> {
    match h {
        Head::Kind(kind) => seq![TokenModel::Ident(kind), TokenModel::LBrace],
        Head::If(path) => seq![
            TokenModel::If,
            TokenModel::LParen,
            TokenModel::Binding(path),
            TokenModel::RParen,
            TokenModel::LBrace,
        ],
        Head::For(path) => seq![
            TokenModel::For,
            TokenModel::LParen,
            TokenModel::Binding(path),
            TokenModel::RParen,
            TokenModel::LBrace,
        ],
    }
}

/// The tokens of a piece of markup.
pub open spec fn spelled(m: Markup) -> Seq<TokenModel>
    decreases m, m.entries.len() + 1,
{
    opening(m.head) + spelled_from(m, 0)
}

/// The properties among entries from the `i`-th on, in their order.
pub open spec fn props_from(m: Markup, i: int, fl: Unit) -> Seq<PropModel>
    decreases m.entries.len() - i,
{
    if i < 0 || i >= m.entries.len() {
        Seq::empty()
    } else {
        (match m.entries[i] {
            Entry::Prop { key, value } => seq![
                PropModel {
                    key,
                    value: match value {
                        TokenModel::Binding(path) => PropValueModel::Binding(path),
                        _ => PropValueModel::Literal(literal_of(value, fl)->0),
                    },
                },
            ],
            _ => Seq::empty(),
        }) + props_from(m, i + 1, fl)
    }
}

/// The handlers among entries from the `i`-th on, in their order.
pub open spec fn handlers_from(m: Markup, i: int, fl: Unit) -> Seq<CallbackModel>
    decreases m.entries.len() - i,
{
    if i < 0 || i >= m.entries.len() {
        Seq::empty()
    } else {
        (match m.entries[i] {
            Entry::Handler { event, action, args } => seq![
                CallbackModel { event, action, args: values(args, fl) },
            ],
            _ => Seq::empty(),
        }) + handlers_from(m, i + 1, fl)
    }
}

/// The values of arguments.
pub open spec fn values(args: Seq<TokenModel>, fl: Unit) -> Seq<ValueModel> {
    args.map_values(|t: TokenModel| literal_of(t, fl)->0)
}

/// The elements among entries from the `i`-th on, in their order.
pub open spec fn elements_from(m: Markup, i: int, fl: Unit) -> Seq<ElementModel>
    decreases m, m.entries.len() - i,
{
    if i < 0 || i >= m.entries.len() {
        Seq::empty()
    } else {
        (match m.entries[i] {
            Entry::Child(c) => seq![element_of(c, fl)],
            _ => Seq::empty(),
        }) + elements_from(m, i + 1, fl)
    }
}

/// The element that a piece of markup is: a condition and a repetition are elements of their own
/// kind with the path bound on them.
pub open spec fn element_of(m: Markup, fl: Unit) -> ElementModel
    decreases m, m.entries.len() + 1,
{
    ElementModel {
        kind: match m.head {
            Head::Kind(kind) => kind,
            Head::If(_) => "If"@,
            Head::For(_) => "For"@,
        },
        props: props_from(m, 0, fl),
        callbacks: handlers_from(m, 0, fl),
        children: elements_from(m, 0, fl),
        bindings: match m.head {
            Head::Kind(_) => Seq::empty(),
            Head::If(path) => seq![("cond"@, path)],
            Head::For(path) => seq![("items"@, path)],
        },
    }
}

/// The tokens `w` stand in `t` from place `p` on.
pub open spec fn stands(t: Seq<TokenModel>, p: int, w: Seq<TokenModel>) -> bool {
    0 <= p && p + w.len() <= t.len() && forall|i: int| 0 <= i < w.len() ==> #[trigger] t[p + i] == w[i]
}

proof fn lemma_stands(t: Seq<TokenModel>, p: int, a: Seq<TokenModel>, b: Seq<TokenModel>)
    requires
        stands(t, p, a + b),
    ensures
        stands(t, p, a),
        stands(t, p + a.len(), b),
{
    assert forall|i: int| 0 <= i < a.len() implies #[trigger] t[p + i] == a[i] by {
        assert(t[p + i] == (a + b)[i]);
    }
    assert forall|i: int| 0 <= i < b.len() implies #[trigger] t[p + a.len() + i] == b[i] by {
        assert(t[p + (a.len() + i)] == (a + b)[a.len() + i]);
    }
}

proof fn lemma_args(t: Seq<TokenModel>, p: int, args: Seq<TokenModel>, i: int, acc: Seq<ValueModel>, fl: Unit)
    requires
        0 <= i < args.len(),
        stands(t, p, spelled_args(args, i)),
        forall|k: int| 0 <= k < args.len() ==> literal_of(#[trigger] args[k], fl) is Some,
        acc == values(args, fl).take(i),
    ensures
        args_at(t, p, acc, fl) == Ok::<(Seq<ValueModel>, int), Fault>(
            (values(args, fl), p + spelled_args(args, i).len()),
        ),
    decreases args.len() - i,
{
    let w = spelled_args(args, i);
    assert(t[p + 0] == w[0]);
    assert(t[p + 1] == w[1]);
    let v = literal_of(args[i], fl)->0;
    assert(acc.push(v) =~= values(args, fl).take(i + 1));
    if i + 1 < args.len() {
        lemma_stands(t, p, seq![args[i], TokenModel::Comma], spelled_args(args, i + 1));
        lemma_args(t, p + 2, args, i + 1, acc.push(v), fl);
    } else {
        assert(values(args, fl).take(i + 1) =~= values(args, fl));
    }
}

proof fn lemma_handler(
    t: Seq<TokenModel>,
    p: int,
    event: Seq<char>,
    action: Seq<char>,
    args: Seq<TokenModel>,
    fl: Unit,
)
    requires
        stands(t, p, spelled_entry(Entry::Handler { event, action, args })),
        forall|k: int| 0 <= k < args.len() ==> literal_of(#[trigger] args[k], fl) is Some,
    ensures
        callback_at(t, p, fl) == Ok::<(CallbackModel, int), Fault>(
            (
                CallbackModel { event, action, args: values(args, fl) },
                p + spelled_entry(Entry::Handler { event, action, args }).len(),
            ),
        ),
{
    let head = seq![
        TokenModel::On,
        TokenModel::Ident(event),
        TokenModel::Colon,
        TokenModel::Ident(action),
        TokenModel::LParen,
    ];
    let mid = spelled_args(args, 0);
    let end = seq![TokenModel::Semicolon];
    lemma_stands(t, p, head + mid, end);
    lemma_stands(t, p, head, mid);
    assert(t[p + 1] == head[1] && t[p + 2] == head[2] && t[p + 3] == head[3] && t[p + 4] == head[4]);
    let q = p + 5 + mid.len();
    assert(t[q + 0] == end[0]);
    assert(t[p + 5 + 0] == mid[0]);
    if args.len() == 0 {
        assert(values(args, fl) =~= Seq::<ValueModel>::empty());
    } else {
        assert(literal_of(args[0], fl) is Some);
        assert(values(args, fl).take(0) =~= Seq::<ValueModel>::empty());
        lemma_args(t, p + 5, args, 0, Seq::empty(), fl);
    }
}

/// The body with what the entries from the `i`-th on add to it.
spec fn with_rest(acc: Body, m: Markup, i: int, fl: Unit) -> Body {
    Body {
        props: acc.props + props_from(m, i, fl),
        callbacks: acc.callbacks + handlers_from(m, i, fl),
        children: acc.children + elements_from(m, i, fl),
    }
}

proof fn lemma_body(t: Seq<TokenModel>, p: int, m: Markup, i: int, acc: Body, fl: Unit)
    requires
        writable(m, fl),
        0 <= i <= m.entries.len(),
        stands(t, p, spelled_from(m, i)),
    ensures
        body_at(t, p, acc, m.head is Kind, fl) == Ok::<(Body, int), Fault>(
            (with_rest(acc, m, i, fl), p + spelled_from(m, i).len()),
        ),
    decreases m, m.entries.len() - i,
{
    let w = spelled_from(m, i);
    let full = m.head is Kind;
    if i < m.entries.len() {
        let e = m.entries[i];
        let a = spelled_entry(e);
        assert(entry_writable(e, full, fl));
        lemma_stands(t, p, a, spelled_from(m, i + 1));
        let q = p + a.len();
        match e {
            Entry::Prop { key, value } => {
                assert(t[p + 0] == a[0] && t[p + 1] == a[1] && t[p + 2] == a[2] && t[p + 3] == a[3]);
                let x = (prop_at(t, p, key, fl)->Ok_0).0;
                let more = Body { props: acc.props.push(x), ..acc };
                lemma_body(t, q, m, i + 1, more, fl);
                assert(with_rest(more, m, i + 1, fl).props =~= with_rest(acc, m, i, fl).props);
                assert(with_rest(more, m, i + 1, fl).callbacks =~= with_rest(acc, m, i, fl).callbacks);
                assert(with_rest(more, m, i + 1, fl).children =~= with_rest(acc, m, i, fl).children);
            },
            Entry::Handler { event, action, args } => {
                assert(t[p + 0] == a[0]);
                lemma_handler(t, p, event, action, args, fl);
                let x = (callback_at(t, p, fl)->Ok_0).0;
                let more = Body { callbacks: acc.callbacks.push(x), ..acc };
                lemma_body(t, q, m, i + 1, more, fl);
                assert(with_rest(more, m, i + 1, fl).props =~= with_rest(acc, m, i, fl).props);
                assert(with_rest(more, m, i + 1, fl).callbacks =~= with_rest(acc, m, i, fl).callbacks);
                assert(with_rest(more, m, i + 1, fl).children =~= with_rest(acc, m, i, fl).children);
            },
            Entry::Child(c) => {
                lemma_markup(t, p, c, fl);
                assert(t[p + 0] == a[0] && t[p + 1] == a[1]);
                let x = element_of(c, fl);
                let more = Body { children: acc.children.push(x), ..acc };
                lemma_body(t, q, m, i + 1, more, fl);
                assert(with_rest(more, m, i + 1, fl).props =~= with_rest(acc, m, i, fl).props);
                assert(with_rest(more, m, i + 1, fl).callbacks =~= with_rest(acc, m, i, fl).callbacks);
                assert(with_rest(more, m, i + 1, fl).children =~= with_rest(acc, m, i, fl).children);
            },
        }
    } else {
        assert(t[p + 0] == w[0]);
        let r = with_rest(acc, m, i, fl);
        assert(r.props =~= acc.props && r.callbacks =~= acc.callbacks && r.children =~= acc.children);
    }
}

proof fn lemma_bare_block(m: Markup, i: int, fl: Unit)
    requires
        writable(m, fl),
        !(m.head is Kind),
        0 <= i <= m.entries.len(),
    ensures
        props_from(m, i, fl) == Seq::<PropModel>::empty(),
        handlers_from(m, i, fl) == Seq::<CallbackModel>::empty(),
    decreases m.entries.len() - i,
{
    if i < m.entries.len() {
        assert(entry_writable(m.entries[i], false, fl));
        lemma_bare_block(m, i + 1, fl);
    }
}

proof fn lemma_markup(t: Seq<TokenModel>, p: int, m: Markup, fl: Unit)
    requires
        writable(m, fl),
        stands(t, p, spelled(m)),
    ensures
        spelled(m).len() >= 2,
        spelled(m)[0] == opening(m.head)[0] && spelled(m)[1] == opening(m.head)[1],
        ({
            let r = Ok::<(ElementModel, int), Fault>((element_of(m, fl), p + spelled(m).len()));
            match m.head {
                Head::Kind(_) => element_at(t, p, fl) == r,
                Head::If(_) => block_at(t, p, "If"@, "cond"@, fl) == r,
                Head::For(_) => block_at(t, p, "For"@, "items"@, fl) == r,
            }
        }),
    decreases m, m.entries.len() + 1,
{
    let a = opening(m.head);
    lemma_stands(t, p, a, spelled_from(m, 0));
    let q = p + a.len();
    assert(t[p + 0] == a[0] && t[p + 1] == a[1]);
    lemma_body(t, q, m, 0, no_body(), fl);
    let b = with_rest(no_body(), m, 0, fl);
    assert(b.props =~= props_from(m, 0, fl));
    assert(b.callbacks =~= handlers_from(m, 0, fl));
    assert(b.children =~= elements_from(m, 0, fl));
    if !(m.head is Kind) {
        lemma_bare_block(m, 0, fl);
        assert(t[p + 2] == a[2] && t[p + 3] == a[3] && t[p + 4] == a[4]);
    }
}

/// Markup is read back from its tokens: properties, handlers and children each keep their order,
/// conditions and repetitions hold what is in their braces, and nothing is lost or added.
pub proof fn law_tokens_give_the_markup(m: Markup, fl: Unit)
    requires
        writable(m, fl),
        m.head is Kind,
    ensures
        root_of(spelled(m), fl) == Ok::<ElementModel, Fault>(element_of(m, fl)),
{
    lemma_markup(spelled(m), 0, m, fl);
}

/// A literal is its content: a text its text, a truth value itself, a number without a point an
/// integer and one with a point a double, and a number with its unit a length.
pub proof fn law_literal_is_its_content(t: TokenModel, n: i64, fl: Unit)
    ensures
        t matches TokenModel::Str(s) ==> literal_of(t, fl) == Some(ValueModel::Text(s)),
        t matches TokenModel::Bool(b) ==> literal_of(t, fl) == Some(ValueModel::Bool(b)),
        t == TokenModel::Number(signed_decimal(n as int)) ==> literal_of(t, fl) == Some(ValueModel::Int(n)),
        t matches TokenModel::Number(s) ==> s.contains('.') ==> literal_of(t, fl) == Some(
            ValueModel::Float(answer(fl, FloatQuery::Read { text: s })),
        ),
        t matches TokenModel::Length(s) ==> s.len() > 2 ==> literal_of(t, fl) == Some(
            ValueModel::Px(said(fl, FloatQuery::ReadSingle { text: s.take(s.len() - 2) })),
        ),
        t is Ident || t is Binding || t is On || t is If || t is For ==> literal_of(t, fl) is None,
{
    law_integer_is_read_back(n);
    let d = signed_decimal(n as int);
    assert(!crate::dsl_syntax::dotted(d)) by {
        if n >= 0 {
            assert forall|i: int| 0 <= i < d.len() implies #[trigger] d[i] != '.' by {
                assert(is_digit(d[i]));
            }
        } else {
            crate::text_law::law_negative_is_minus_and_digits(n);
            assert forall|i: int| 0 <= i < d.len() implies #[trigger] d[i] != '.' by {
                if i > 0 {
                    assert(is_digit(d[i]));
                }
            }
        }
    }
    if let TokenModel::Number(s) = t {
        if s.contains('.') {
            let i = s.index_of('.');
            assert(s[i] == '.');
            assert(crate::dsl_syntax::dotted(s));
        }
    }
}

/// The byte that two hexadecimal digits write, in letters of either case.
pub open spec fn byte(a: char, b: char) -> int {
    let nibble = |c: char|
        if '0' <= c <= '9' {
            c as int - '0' as int
        } else if 'a' <= c <= 'f' {
            c as int - 'a' as int + 10
        } else {
            c as int - 'A' as int + 10
        };
    16 * nibble(a) + nibble(b)
}

/// Two hexadecimal digits more are one byte more.
pub proof fn lemma_pair(d: Seq<char>, i: int)
    requires
        0 <= i,
        i + 2 <= d.len(),
        forall|k: int| 0 <= k < d.len() ==> is_hex(#[trigger] d[k]),
    ensures
        hex_value(d.take(i + 2)) == hex_value(d.take(i)) * 256 + byte(d[i], d[i + 1]),
        0 <= byte(d[i], d[i + 1]) <= 255,
{
    assert(d.take(i + 2).drop_last() =~= d.take(i + 1));
    assert(d.take(i + 1).drop_last() =~= d.take(i));
    assert(is_hex(d[i]) && is_hex(d[i + 1]));
    reveal_with_fuel(hex_value, 3);
}

/// A colour is written by its red, green and blue, two hexadecimal digits each, with two more for
/// how opaque it is; without those it is opaque.
pub proof fn law_color_is_written_by_its_bytes(s: Seq<char>, fl: Unit)
    requires
        s.len() == 7 || s.len() == 9,
        forall|k: int| 1 <= k < s.len() ==> is_hex(#[trigger] s[k]),
    ensures
        literal_of(TokenModel::Color(s), fl) matches Some(ValueModel::Color(c)) && c == rgba(
            byte(s[1], s[2]),
            byte(s[3], s[4]),
            byte(s[5], s[6]),
            if s.len() == 9 {
                byte(s[7], s[8])
            } else {
                255
            },
        ),
{
    let d = s.skip(1);
    assert forall|k: int| 0 <= k < d.len() implies is_hex(#[trigger] d[k]) by {
        assert(d[k] == s[k + 1]);
    }
    assert(d.take(0) =~= Seq::<char>::empty());
    lemma_pair(d, 0);
    lemma_pair(d, 2);
    lemma_pair(d, 4);
    if s.len() == 9 {
        lemma_pair(d, 6);
        assert(d.take(8) =~= d);
    } else {
        assert(d.take(6) =~= d);
    }
}

/// The reading of `s` from `i` on is a token and then what is read from `j` on.
pub open spec fn reads(s: Seq<char>, i: int, t: TokenModel, j: int) -> bool {
    match lexed(s, j) {
        Ok(rest) => lexed(s, i) == Ok::<Seq<TokenModel>, int>(seq![t] + rest),
        Err(e) => lexed(s, i) == Err::<Seq<TokenModel>, int>(e),
    }
}

/// Signs are tokens of their own; blanks stand for nothing.
pub proof fn law_marks_are_tokens(s: Seq<char>, i: int)
    requires
        0 <= i < s.len(),
    ensures
        s[i] == ' ' || s[i] == '\n' || s[i] == '\t' || s[i] == '\r' ==> lexed(s, i) == lexed(s, i + 1),
        s[i] == '{' ==> reads(s, i, TokenModel::LBrace, i + 1),
        s[i] == '}' ==> reads(s, i, TokenModel::RBrace, i + 1),
        s[i] == '(' ==> reads(s, i, TokenModel::LParen, i + 1),
        s[i] == ')' ==> reads(s, i, TokenModel::RParen, i + 1),
        s[i] == ':' ==> reads(s, i, TokenModel::Colon, i + 1),
        s[i] == ';' ==> reads(s, i, TokenModel::Semicolon, i + 1),
        s[i] == ',' ==> reads(s, i, TokenModel::Comma, i + 1),
{
}

proof fn lemma_line_end(s: Seq<char>, i: int, e: int)
    requires
        0 <= i <= e <= s.len(),
        forall|k: int| i <= k < e ==> s[k] != '\n',
        e == s.len() || s[e] == '\n',
    ensures
        line_end(s, i) == e,
    decreases e - i,
{
    if i < e {
        lemma_line_end(s, i + 1, e);
    }
}

/// What stands behind two slashes, up to the end of the line, stands for nothing.
pub proof fn law_comments_stand_for_nothing(s: Seq<char>, i: int, e: int)
    requires
        0 <= i,
        i + 2 <= e <= s.len(),
        s[i] == '/' && s[i + 1] == '/',
        forall|k: int| i <= k < e ==> s[k] != '\n',
        e == s.len() || s[e] == '\n',
    ensures
        lexed(s, i) == lexed(s, e),
{
    lemma_line_end(s, i, e);
}

proof fn lemma_name_end(s: Seq<char>, i: int, e: int)
    requires
        0 <= i <= e <= s.len(),
        forall|k: int| i <= k < e ==> continues_name(#[trigger] s[k]),
        e == s.len() || !continues_name(s[e]),
    ensures
        name_end(s, i) == e,
    decreases e - i,
{
    if i < e {
        assert(continues_name(s[i]));
        lemma_name_end(s, i + 1, e);
    }
}

/// A word is one token: the words for truth, handlers, conditions and repetitions are those, and
/// any other is a name.
pub proof fn law_word_is_a_token(s: Seq<char>, i: int, w: Seq<char>)
    requires
        w.len() > 0,
        starts_name(w[0]),
        forall|k: int| 0 <= k < w.len() ==> continues_name(#[trigger] w[k]),
        excerpt(s, i, i + w.len(), w),
        i + w.len() == s.len() || !continues_name(s[i + w.len()]),
    ensures
        w == "true"@ ==> reads(s, i, TokenModel::Bool(true), i + w.len()),
        w == "false"@ ==> reads(s, i, TokenModel::Bool(false), i + w.len()),
        w == "on"@ ==> reads(s, i, TokenModel::On, i + w.len()),
        w == "if"@ ==> reads(s, i, TokenModel::If, i + w.len()),
        w == "for"@ ==> reads(s, i, TokenModel::For, i + w.len()),
        w != "true"@ && w != "false"@ && w != "on"@ && w != "if"@ && w != "for"@ ==> reads(
            s,
            i,
            TokenModel::Ident(w),
            i + w.len(),
        ),
{
    let e = i + w.len();
    assert(w[0] == s[i + 0]);
    assert forall|k: int| i <= k < e implies continues_name(#[trigger] s[k]) by {
        assert(w[k - i] == s[i + (k - i)]);
    }
    lemma_name_end(s, i, e);
    assert(s.subrange(i, e) =~= w) by {
        assert forall|k: int| 0 <= k < w.len() implies s.subrange(i, e)[k] == w[k] by {
            assert(w[k] == s[i + k]);
        }
    }
    reveal_strlit("true");
    reveal_strlit("false");
    reveal_strlit("on");
    reveal_strlit("if");
    reveal_strlit("for");
    assert("true"@.len() == 4 && "false"@.len() == 5 && "on"@.len() == 2 && "if"@.len() == 2 && "for"@.len() == 3);
    assert("on"@[0] == 'o' && "if"@[0] == 'i');
}

proof fn lemma_string_end(s: Seq<char>, i: int, e: int)
    requires
        0 <= i <= e < s.len(),
        s[e] == '"',
        forall|k: int| i <= k < e ==> s[k] != '"' && s[k] != '\\',
    ensures
        string_end(s, i) == Some(e),
    decreases e - i,
{
    if i < e {
        lemma_string_end(s, i + 1, e);
    }
}

proof fn lemma_plain(w: Seq<char>)
    requires
        !w.contains('\\'),
    ensures
        unescaped(w) == w,
    decreases w.len(),
{
    if w.len() > 0 {
        assert(w[0] != '\\') by {
            assert(w.contains(w[0]));
        }
        assert(!w.skip(1).contains('\\')) by {
            if w.skip(1).contains('\\') {
                let k = w.skip(1).index_of('\\');
                assert(w[k + 1] == '\\');
            }
        }
        lemma_plain(w.skip(1));
        assert(seq![w[0]] + w.skip(1) =~= w);
    } else {
        assert(unescaped(w) =~= w);
    }
}

/// A text in quotes without a backslash is the token of what stands between them; behind a
/// backslash, `n`, `t` and `r` are the end of a line, a tab and a return, and any other character is
/// itself.
pub proof fn law_quotes_hold_a_text(s: Seq<char>, i: int, w: Seq<char>, c: char, rest: Seq<char>)
    ensures
        excerpt(s, i + 1, i + 1 + w.len(), w) && 0 <= i && i + w.len() + 1 < s.len() && s[i] == '"' && s[i + w.len()
            + 1] == '"' && !w.contains('"') && !w.contains('\\') ==> reads(
            s,
            i,
            TokenModel::Str(w),
            i + w.len() + 2,
        ),
        unescaped(seq!['\\', c] + rest) == seq![
            if c == 'n' {
                '\n'
            } else if c == 't' {
                '\t'
            } else if c == 'r' {
                '\r'
            } else {
                c
            },
        ] + unescaped(rest),
{
    if excerpt(s, i + 1, i + 1 + w.len(), w) && 0 <= i && i + w.len() + 1 < s.len() && s[i] == '"' && s[i + w.len()
        + 1] == '"' && !w.contains('"') && !w.contains('\\') {
        let e = i + w.len() + 1;
        assert forall|k: int| i + 1 <= k < e implies s[k] != '"' && s[k] != '\\' by {
            assert(w[k - i - 1] == s[i + 1 + (k - i - 1)]);
            assert(w.contains(w[k - i - 1]));
        }
        lemma_string_end(s, i + 1, e);
        lemma_plain(w);
        assert(s.subrange(i + 1, e) =~= w) by {
            assert forall|k: int| 0 <= k < w.len() implies s.subrange(i + 1, e)[k] == w[k] by {
                assert(w[k] == s[i + 1 + k]);
            }
        }
    }
    let all = seq!['\\', c] + rest;
    assert(all.skip(2) =~= rest);
    assert(all[0] == '\\' && all[1] == c);
}

proof fn lemma_path_end(s: Seq<char>, i: int, e: int)
    requires
        0 <= i <= e <= s.len(),
        forall|k: int| i <= k < e ==> continues_name(#[trigger] s[k]),
        e == s.len() || (!continues_name(s[e]) && s[e] != '.'),
    ensures
        path_end(s, i) == e,
    decreases e - i,
{
    if i < e {
        assert(continues_name(s[i]));
        lemma_path_end(s, i + 1, e);
    }
}

/// A name behind a dollar sign is a binding to it.
pub proof fn law_dollar_binds_a_name(s: Seq<char>, i: int, w: Seq<char>)
    requires
        0 <= i < s.len(),
        s[i] == '$',
        w.len() > 0,
        starts_name(w[0]),
        forall|k: int| 0 <= k < w.len() ==> continues_name(#[trigger] w[k]),
        excerpt(s, i + 1, i + 1 + w.len(), w),
        i + 1 + w.len() == s.len() || (!continues_name(s[i + 1 + w.len()]) && s[i + 1 + w.len()] != '.'),
    ensures
        reads(s, i, TokenModel::Binding(w), i + 1 + w.len()),
{
    let e = i + 1 + w.len();
    assert(w[0] == s[i + 1 + 0]);
    assert forall|k: int| i + 1 <= k < e implies continues_name(#[trigger] s[k]) by {
        assert(w[k - i - 1] == s[i + 1 + (k - i - 1)]);
    }
    lemma_path_end(s, i + 1, e);
    assert(s.subrange(i + 1, e) =~= w) by {
        assert forall|k: int| 0 <= k < w.len() implies s.subrange(i + 1, e)[k] == w[k] by {
            assert(w[k] == s[i + 1 + k]);
        }
    }
}

} // verus!
