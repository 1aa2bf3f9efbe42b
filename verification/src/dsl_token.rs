//! The tokens of the `.uni` language and how a source text is cut into them.
use vstd::prelude::*;
use vstd::utf8::encode_utf8;

use crate::dsl::{ErrorModel, ParseError};
use crate::scan::is_hex;
use crate::text::{chars_of, code, is_digit, same, text_of};

verus! {

/// A word, a sign or a literal of the language. Literals keep their text.
#[derive(Debug, PartialEq, Eq, Hash)]
pub enum Token {
    LBrace,
    RBrace,
    LParen,
    RParen,
    Colon,
    Semicolon,
    Comma,
    On,
    If,
    For,
    Bool(bool),
    /// `#RRGGBB` or `#RRGGBBAA`.
    Color(String),
    /// A number with `px` behind it.
    Length(String),
    Number(String),
    /// A string without its quotes and escapes.
    Str(String),
    /// A path without its dollar sign.
    Binding(String),
    Ident(String),
}

/// A [`Token`] as mathematics.
pub enum TokenModel {
    LBrace,
    RBrace,
    LParen,
    RParen,
    Colon,
    Semicolon,
    Comma,
    On,
    If,
    For,
    Bool(bool),
    Color(Seq<char>),
    Length(Seq<char>),
    Number(Seq<char>),
    Str(Seq<char>),
    Binding(Seq<char>),
    Ident(Seq<char>),
}

impl View for Token {
    type V = TokenModel;

    open spec fn view(&self) -> TokenModel {
        match *self {
            Token::LBrace => TokenModel::LBrace,
            Token::RBrace => TokenModel::RBrace,
            Token::LParen => TokenModel::LParen,
            Token::RParen => TokenModel::RParen,
            Token::Colon => TokenModel::Colon,
            Token::Semicolon => TokenModel::Semicolon,
            Token::Comma => TokenModel::Comma,
            Token::On => TokenModel::On,
            Token::If => TokenModel::If,
            Token::For => TokenModel::For,
            Token::Bool(b) => TokenModel::Bool(b),
            Token::Color(s) => TokenModel::Color(s@),
            Token::Length(s) => TokenModel::Length(s@),
            Token::Number(s) => TokenModel::Number(s@),
            Token::Str(s) => TokenModel::Str(s@),
            Token::Binding(s) => TokenModel::Binding(s@),
            Token::Ident(s) => TokenModel::Ident(s@),
        }
    }
}

/// The models of a row of tokens.
pub open spec fn token_models(s: Seq<Token>) -> Seq<TokenModel> {
    s.map_values(|t: Token| t@)
}

/// White space between tokens.
pub open spec fn is_space(c: char) -> bool {
    c == ' ' || c == '\t' || c == '\r' || c == '\n' || c == '\x0C'
}

/// A character that starts a name.
pub open spec fn starts_name(c: char) -> bool {
    65 <= c as int <= 90 || 97 <= c as int <= 122 || c == '_'
}

/// A character that continues a name.
pub open spec fn continues_name(c: char) -> bool {
    starts_name(c) || is_digit(c) || c == '-'
}

/// The end of the name that goes on at `i`.
pub open spec fn name_end(s: Seq<char>, i: int) -> int
    decreases s.len() - i,
{
    if 0 <= i < s.len() && continues_name(s[i]) {
        name_end(s, i + 1)
    } else {
        i
    }
}

/// The end of the path whose name goes on at `i`: names with dots between them.
pub open spec fn path_end(s: Seq<char>, i: int) -> int
    decreases s.len() - i,
{
    if i < 0 || i >= s.len() {
        i
    } else if continues_name(s[i]) {
        path_end(s, i + 1)
    } else if s[i] == '.' && i + 1 < s.len() && starts_name(s[i + 1]) {
        path_end(s, i + 1)
    } else {
        i
    }
}

/// The end of the run of digits at `i`.
pub open spec fn digits_end(s: Seq<char>, i: int) -> int
    decreases s.len() - i,
{
    if 0 <= i < s.len() && is_digit(s[i]) {
        digits_end(s, i + 1)
    } else {
        i
    }
}

/// The end of the number at `i`: digits, and a dot and digits behind them where both are there.
pub open spec fn number_end(s: Seq<char>, i: int) -> int {
    let e = digits_end(s, i);
    if e + 1 < s.len() && s[e] == '.' && is_digit(s[e + 1]) {
        digits_end(s, e + 1)
    } else {
        e
    }
}

/// The end of the line that `i` is in.
pub open spec fn line_end(s: Seq<char>, i: int) -> int
    decreases s.len() - i,
{
    if 0 <= i < s.len() && s[i] != '\n' {
        line_end(s, i + 1)
    } else {
        i
    }
}

/// Where the string that goes on at `i` is closed, if it is. A backslash takes the character
/// behind it with it, which may not be a line feed.
pub open spec fn string_end(s: Seq<char>, i: int) -> Option<int>
    decreases s.len() - i,
{
    if i < 0 || i >= s.len() {
        None
    } else if s[i] == '"' {
        Some(i)
    } else if s[i] == '\\' {
        if i + 1 < s.len() && s[i + 1] != '\n' {
            string_end(s, i + 2)
        } else {
            None
        }
    } else {
        string_end(s, i + 1)
    }
}

/// The character that a letter behind a backslash stands for.
pub open spec fn escape(c: char) -> char {
    if c == 'n' {
        '\n'
    } else if c == 't' {
        '\t'
    } else if c == 'r' {
        '\r'
    } else {
        c
    }
}

/// The text of a string with its escapes resolved.
pub open spec fn unescaped(s: Seq<char>) -> Seq<char>
    decreases s.len(),
{
    if s.len() == 0 {
        s
    } else if s[0] == '\\' {
        if s.len() > 1 {
            seq![escape(s[1])] + unescaped(s.skip(2))
        } else {
            Seq::empty()
        }
    } else {
        seq![s[0]] + unescaped(s.skip(1))
    }
}

/// How many of the `n` characters from `i` on are hexadecimal digits, before the first that is
/// none.
pub open spec fn hex_run(s: Seq<char>, i: int, n: nat) -> nat
    decreases n,
{
    if n == 0 || i < 0 || i >= s.len() || !is_hex(s[i]) {
        0
    } else {
        1 + hex_run(s, i + 1, (n - 1) as nat)
    }
}

/// The sign that a character is.
pub open spec fn sign(c: char) -> Option<TokenModel> {
    if c == '{' {
        Some(TokenModel::LBrace)
    } else if c == '}' {
        Some(TokenModel::RBrace)
    } else if c == '(' {
        Some(TokenModel::LParen)
    } else if c == ')' {
        Some(TokenModel::RParen)
    } else if c == ':' {
        Some(TokenModel::Colon)
    } else if c == ';' {
        Some(TokenModel::Semicolon)
    } else if c == ',' {
        Some(TokenModel::Comma)
    } else {
        None
    }
}

/// The token that a name is: a keyword, a truth value or an identifier.
pub open spec fn word(s: Seq<char>) -> TokenModel {
    if s == "true"@ {
        TokenModel::Bool(true)
    } else if s == "false"@ {
        TokenModel::Bool(false)
    } else if s == "on"@ {
        TokenModel::On
    } else if s == "if"@ {
        TokenModel::If
    } else if s == "for"@ {
        TokenModel::For
    } else {
        TokenModel::Ident(s)
    }
}

/// The token at `i`, if there is one before the place that follows; `None` where the text is no
/// token.
pub open spec fn token_at(s: Seq<char>, i: int) -> Option<(Option<TokenModel>, int)> {
    let c = s[i];
    if is_space(c) {
        Some((None, i + 1))
    } else if c == '/' && i + 1 < s.len() && s[i + 1] == '/' {
        Some((None, line_end(s, i)))
    } else if sign(c) is Some {
        Some((sign(c), i + 1))
    } else if c == '#' {
        if hex_run(s, i + 1, 8) == 8 {
            Some((Some(TokenModel::Color(s.subrange(i, i + 9))), i + 9))
        } else if hex_run(s, i + 1, 8) >= 6 {
            Some((Some(TokenModel::Color(s.subrange(i, i + 7))), i + 7))
        } else {
            None
        }
    } else if is_digit(c) {
        let e = number_end(s, i);
        if e + 1 < s.len() && s[e] == 'p' && s[e + 1] == 'x' {
            Some((Some(TokenModel::Length(s.subrange(i, e + 2))), e + 2))
        } else {
            Some((Some(TokenModel::Number(s.subrange(i, e))), e))
        }
    } else if c == '"' {
        match string_end(s, i + 1) {
            Some(e) => Some((Some(TokenModel::Str(unescaped(s.subrange(i + 1, e)))), e + 1)),
            None => None,
        }
    } else if c == '$' {
        if i + 1 < s.len() && starts_name(s[i + 1]) {
            let e = path_end(s, i + 1);
            Some((Some(TokenModel::Binding(s.subrange(i + 1, e))), e))
        } else {
            None
        }
    } else if starts_name(c) {
        let e = name_end(s, i);
        Some((Some(word(s.subrange(i, e))), e))
    } else {
        None
    }
}

/// The tokens from `i` on, or the place of the first character that is part of none.
pub open spec fn lexed(s: Seq<char>, i: int) -> Result<Seq<TokenModel>, int>
    decreases s.len() - i,
{
    if i < 0 || i >= s.len() {
        Ok(Seq::empty())
    } else {
        match token_at(s, i) {
            None => Err(i),
            Some((t, j)) => {
                let rest = if i < j <= s.len() {
                    lexed(s, j)
                } else {
                    Ok(Seq::empty())
                };
                match (t, rest) {
                    (_, Err(e)) => Err(e),
                    (Some(x), Ok(v)) => Ok(seq![x] + v),
                    (None, Ok(v)) => Ok(v),
                }
            },
        }
    }
}

/// Where the character at `i` starts in bytes.
pub open spec fn byte_at(s: Seq<char>, i: int) -> usize {
    encode_utf8(s.take(i)).len() as usize
}

/// The error for the character at `i`.
pub open spec fn lex_error(s: Seq<char>, i: int) -> ErrorModel {
    ErrorModel::Lex { start: byte_at(s, i), end: byte_at(s, i + 1) }
}

fn space(c: char) -> (r: bool)
    ensures
        r == is_space(c),
{
    c == ' ' || c == '\t' || c == '\r' || c == '\n' || c == '\x0C'
}

fn letter(c: char) -> (r: bool)
    ensures
        r == starts_name(c),
{
    let x: u32 = code(c);
    (65 <= x && x <= 90) || (97 <= x && x <= 122) || c == '_'
}

fn figure(c: char) -> (r: bool)
    ensures
        r == is_digit(c),
{
    let x: u32 = code(c);
    48 <= x && x <= 57
}

fn part_of_name(c: char) -> (r: bool)
    ensures
        r == continues_name(c),
{
    letter(c) || figure(c) || c == '-'
}

fn hex_figure(c: char) -> (r: bool)
    ensures
        r == is_hex(c),
{
    let x: u32 = code(c);
    (48 <= x && x <= 57) || (65 <= x && x <= 70) || (97 <= x && x <= 102)
}

fn piece(cs: &Vec<char>, from: usize, to: usize) -> (r: Vec<char>)
    requires
        from <= to <= cs@.len(),
    ensures
        r@ == cs@.subrange(from as int, to as int),
{
    let mut out: Vec<char> = Vec::new();
    let mut i: usize = from;
    while i < to
        invariant
            from <= i <= to <= cs@.len(),
            out@ == cs@.subrange(from as int, i as int),
        decreases to - i,
    {
        out.push(cs[i]);
        i += 1;
        assert(out@ =~= cs@.subrange(from as int, i as int));
    }
    out
}

fn piece_text(cs: &Vec<char>, from: usize, to: usize) -> (r: String)
    requires
        from <= to <= cs@.len(),
    ensures
        r@ == cs@.subrange(from as int, to as int),
{
    let v = piece(cs, from, to);
    text_of(&v)
}

fn find_name_end(cs: &Vec<char>, i: usize) -> (r: usize)
    requires
        i <= cs@.len(),
    ensures
        r == name_end(cs@, i as int),
        i <= r <= cs@.len(),
        i < cs@.len() && continues_name(cs@[i as int]) ==> r > i,
{
    let mut j: usize = i;
    while j < cs.len() && part_of_name(cs[j])
        invariant
            i <= j <= cs@.len(),
            name_end(cs@, i as int) == name_end(cs@, j as int),
            j == i || (continues_name(cs@[i as int]) && j > i),
        decreases cs.len() - j,
    {
        j += 1;
    }
    j
}

fn find_path_end(cs: &Vec<char>, i: usize) -> (r: usize)
    requires
        i <= cs@.len(),
    ensures
        r == path_end(cs@, i as int),
        i <= r <= cs@.len(),
{
    let n: usize = cs.len();
    let mut j: usize = i;
    while j < n && (part_of_name(cs[j]) || (cs[j] == '.' && n - j > 1 && letter(cs[j + 1])))
        invariant
            n == cs@.len(),
            i <= j <= n,
            path_end(cs@, i as int) == path_end(cs@, j as int),
        decreases n - j,
    {
        j += 1;
    }
    j
}

fn find_digits_end(cs: &Vec<char>, i: usize) -> (r: usize)
    requires
        i <= cs@.len(),
    ensures
        r == digits_end(cs@, i as int),
        i <= r <= cs@.len(),
        i < cs@.len() && is_digit(cs@[i as int]) ==> r > i,
{
    let mut j: usize = i;
    while j < cs.len() && figure(cs[j])
        invariant
            i <= j <= cs@.len(),
            digits_end(cs@, i as int) == digits_end(cs@, j as int),
            j == i || (is_digit(cs@[i as int]) && j > i),
        decreases cs.len() - j,
    {
        j += 1;
    }
    j
}

fn find_line_end(cs: &Vec<char>, i: usize) -> (r: usize)
    requires
        i <= cs@.len(),
    ensures
        r == line_end(cs@, i as int),
        i <= r <= cs@.len(),
        i < cs@.len() && cs@[i as int] != '\n' ==> r > i,
{
    let mut j: usize = i;
    while j < cs.len() && cs[j] != '\n'
        invariant
            i <= j <= cs@.len(),
            line_end(cs@, i as int) == line_end(cs@, j as int),
            j == i || (cs@[i as int] != '\n' && j > i),
        decreases cs.len() - j,
    {
        j += 1;
    }
    j
}

fn find_string_end(cs: &Vec<char>, i: usize) -> (r: Option<usize>)
    requires
        i <= cs@.len(),
    ensures
        match r {
            Some(e) => string_end(cs@, i as int) == Some(e as int) && i <= e < cs@.len(),
            None => string_end(cs@, i as int) is None,
        },
{
    let n: usize = cs.len();
    let mut j: usize = i;
    while j < n
        invariant
            n == cs@.len(),
            i <= j <= n,
            string_end(cs@, i as int) == string_end(cs@, j as int),
        decreases n - j,
    {
        if cs[j] == '"' {
            return Some(j);
        } else if cs[j] == '\\' {
            if n - j > 1 && cs[j + 1] != '\n' {
                j += 2;
            } else {
                return None;
            }
        } else {
            j += 1;
        }
    }
    None
}

fn count_hex(cs: &Vec<char>, i: usize, n: u8) -> (r: u8)
    requires
        i <= cs@.len(),
    ensures
        r == hex_run(cs@, i as int, n as nat),
        r <= n,
        i + r <= cs@.len(),
    decreases n,
{
    if n == 0 || i >= cs.len() || !hex_figure(cs[i]) {
        0
    } else {
        1 + count_hex(cs, i + 1, n - 1)
    }
}

fn unescape(cs: &Vec<char>) -> (r: String)
    ensures
        r@ == unescaped(cs@),
{
    let n: usize = cs.len();
    let mut out = String::new();
    let mut i: usize = 0;
    assert(cs@.skip(0) =~= cs@);
    assert(out@ + unescaped(cs@) =~= unescaped(cs@));
    while i < n
        invariant
            n == cs@.len(),
            i <= n,
            out@ + unescaped(cs@.skip(i as int)) == unescaped(cs@),
        decreases n - i,
    {
        let ghost rest = cs@.skip(i as int);
        let ghost so_far = out@;
        if cs[i] == '\\' {
            if n - i > 1 {
                let c: char = cs[i + 1];
                out.push(
                    if c == 'n' {
                        '\n'
                    } else if c == 't' {
                        '\t'
                    } else if c == 'r' {
                        '\r'
                    } else {
                        c
                    },
                );
                assert(rest.skip(2) =~= cs@.skip(i + 2));
                i += 2;
                assert(out@ + unescaped(cs@.skip(i as int)) =~= so_far + unescaped(rest));
            } else {
                i += 1;
                assert(cs@.skip(i as int) =~= Seq::empty());
                assert(out@ + unescaped(cs@.skip(i as int)) =~= so_far + unescaped(rest));
            }
        } else {
            out.push(cs[i]);
            assert(rest.skip(1) =~= cs@.skip(i + 1));
            i += 1;
            assert(out@ + unescaped(cs@.skip(i as int)) =~= so_far + unescaped(rest));
        }
    }
    assert(cs@.skip(i as int) =~= Seq::empty());
    assert(out@ + unescaped(cs@.skip(i as int)) =~= out@);
    out
}

fn sign_of(c: char) -> (r: Option<Token>)
    ensures
        match r {
            Some(t) => sign(c) == Some(t@),
            None => sign(c) is None,
        },
{
    if c == '{' {
        Some(Token::LBrace)
    } else if c == '}' {
        Some(Token::RBrace)
    } else if c == '(' {
        Some(Token::LParen)
    } else if c == ')' {
        Some(Token::RParen)
    } else if c == ':' {
        Some(Token::Colon)
    } else if c == ';' {
        Some(Token::Semicolon)
    } else if c == ',' {
        Some(Token::Comma)
    } else {
        None
    }
}

fn word_of(s: String) -> (r: Token)
    ensures
        r@ == word(s@),
{
    if same(s.as_str(), "true") {
        Token::Bool(true)
    } else if same(s.as_str(), "false") {
        Token::Bool(false)
    } else if same(s.as_str(), "on") {
        Token::On
    } else if same(s.as_str(), "if") {
        Token::If
    } else if same(s.as_str(), "for") {
        Token::For
    } else {
        Token::Ident(s)
    }
}

fn next_token(cs: &Vec<char>, i: usize) -> (r: Option<(Option<Token>, usize)>)
    requires
        i < cs@.len(),
    ensures
        match r {
            None => token_at(cs@, i as int) is None,
            Some((t, j)) => i < j <= cs@.len() && token_at(cs@, i as int) == Some(
                (
                    match t {
                        Some(x) => Some(x@),
                        None => None,
                    },
                    j as int,
                ),
            ),
        },
{
    let n: usize = cs.len();
    let c: char = cs[i];
    if space(c) {
        return Some((None, i + 1));
    }
    if c == '/' && n - i > 1 && cs[i + 1] == '/' {
        return Some((None, find_line_end(cs, i)));
    }
    match sign_of(c) {
        Some(t) => {
            return Some((Some(t), i + 1));
        },
        None => {},
    }
    if c == '#' {
        let run: u8 = count_hex(cs, i + 1, 8);
        if run == 8 {
            Some((Some(Token::Color(piece_text(cs, i, i + 9))), i + 9))
        } else if run >= 6 {
            Some((Some(Token::Color(piece_text(cs, i, i + 7))), i + 7))
        } else {
            None
        }
    } else if figure(c) {
        let d: usize = find_digits_end(cs, i);
        let e: usize = if n - d > 1 && cs[d] == '.' && figure(cs[d + 1]) {
            find_digits_end(cs, d + 1)
        } else {
            d
        };
        if n - e > 1 && cs[e] == 'p' && cs[e + 1] == 'x' {
            Some((Some(Token::Length(piece_text(cs, i, e + 2))), e + 2))
        } else {
            Some((Some(Token::Number(piece_text(cs, i, e))), e))
        }
    } else if c == '"' {
        match find_string_end(cs, i + 1) {
            Some(e) => {
                let raw = piece(cs, i + 1, e);
                Some((Some(Token::Str(unescape(&raw))), e + 1))
            },
            None => None,
        }
    } else if c == '$' {
        if n - i > 1 && letter(cs[i + 1]) {
            let e: usize = find_path_end(cs, i + 1);
            Some((Some(Token::Binding(piece_text(cs, i + 1, e))), e))
        } else {
            None
        }
    } else if letter(c) {
        let e: usize = find_name_end(cs, i);
        Some((Some(word_of(piece_text(cs, i, e))), e))
    } else {
        None
    }
}

fn byte_index(cs: &Vec<char>, i: usize) -> (r: usize)
    requires
        i <= cs@.len(),
    ensures
        r == byte_at(cs@, i as int),
{
    let s = piece_text(cs, 0, i);
    assert(cs@.subrange(0, i as int) =~= cs@.take(i as int));
    s.as_str().len()
}

/// The result of cutting a text into tokens.
pub open spec fn lex_result(s: Seq<char>) -> Result<Seq<TokenModel>, ErrorModel> {
    match lexed(s, 0) {
        Ok(v) => Ok(v),
        Err(i) => Err(lex_error(s, i)),
    }
}

/// Cuts a source text into tokens. White space and comments separate them.
pub fn lex(src: &str) -> (r: Result<Vec<Token>, ParseError>)
    ensures
        match r {
            Ok(v) => lex_result(src@) == Ok::<Seq<TokenModel>, ErrorModel>(token_models(v@))
                && v@.len() <= src@.len(),
            Err(e) => lex_result(src@) == Err::<Seq<TokenModel>, ErrorModel>(e@),
        },
{
    let cs = chars_of(src);
    let mut toks: Vec<Token> = Vec::new();
    let mut i: usize = 0;
    let ghost goal = lexed(src@, 0);
    proof {
        match goal {
            Ok(v) => {
                assert(token_models(toks@) + v =~= v);
            },
            Err(_) => {},
        }
    }
    while i < cs.len()
        invariant
            cs@ == src@,
            i <= cs@.len(),
            toks@.len() <= i,
            goal == lexed(src@, 0),
            match lexed(src@, i as int) {
                Ok(v) => goal == Ok::<Seq<TokenModel>, int>(token_models(toks@) + v),
                Err(e) => goal == Err::<Seq<TokenModel>, int>(e),
            },
        decreases cs.len() - i,
    {
        let ghost so_far = token_models(toks@);
        let ghost at: int = i as int;
        match next_token(&cs, i) {
            None => {
                return Err(ParseError::Lex { start: byte_index(&cs, i), end: byte_index(&cs, i + 1) });
            },
            Some((t, j)) => {
                i = j;
                match t {
                    Some(x) => {
                        let ghost m = x@;
                        toks.push(x);
                        proof {
                            assert(token_models(toks@) =~= so_far.push(m));
                            match lexed(src@, j as int) {
                                Ok(v) => {
                                    assert(so_far + (seq![m] + v) =~= token_models(toks@) + v);
                                },
                                Err(_) => {},
                            }
                        }
                    },
                    None => {},
                }
            },
        }
    }
    proof {
        assert(lexed(src@, i as int) == Ok::<Seq<TokenModel>, int>(Seq::empty()));
        assert(token_models(toks@) + Seq::<TokenModel>::empty() =~= token_models(toks@));
    }
    Ok(toks)
}

} // verus!
