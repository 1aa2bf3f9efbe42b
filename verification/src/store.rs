//! The state store: values under text keys, with a tick that counts every write, and a text
//! snapshot of it that can be read back.
use vstd::prelude::*;

use crate::float::{ask, steady, unit, FloatOp, FloatQuery, Unit};
use crate::node::prop_models;
use crate::scan::{hex_value, is_hex_u32, parse_hex};
use crate::text::{
    chars_of, copy, decimal, decimal_text, in_order, integer64, parse_i64, same, signed_decimal,
    signed_decimal_text,
};
use crate::text_map::{lemma_text_map_finite, TextMap};
use crate::value::{Value, ValueModel};

verus! {

/// A floating-point number to be written as text.
#[derive(Debug, Clone, Copy)]
pub enum FloatText {
    /// A double, by its bits.
    Double(u64),
    /// A single, by its bits.
    Single(u32),
}

/// The printer takes every number.
pub open spec fn prints<P: Fn(FloatText) -> String>(p: P) -> bool {
    &&& forall|x: FloatText| #[trigger] call_requires(p, (x,))
    &&& forall|x: FloatText, a: String, b: String| #[trigger]
        call_ensures(p, (x,), a) && #[trigger] call_ensures(p, (x,), b) ==> a@ == b@
}

/// A printer as a mathematical function.
pub type Printer = spec_fn(FloatText) -> Seq<char>;

/// The function that a printer computes.
pub open spec fn printer<P: Fn(FloatText) -> String>(p: P) -> Printer {
    |x: FloatText| (choose|s: String| call_ensures(p, (x,), s))@
}

fn print<P: Fn(FloatText) -> String>(p: &P, x: FloatText) -> (r: String)
    requires
        prints(*p),
    ensures
        r@ == printer(*p)(x),
{
    p(x)
}

/// State under text keys. It is a plain value: a clone is a copy of its own, and whoever watches for
/// changes compares [`Store::change_tick`].
#[derive(Debug)]
pub struct Store {
    cells: TextMap<Value>,
    tick: u64,
}

impl View for Store {
    type V = Map<Seq<char>, ValueModel>;

    closed spec fn view(&self) -> Map<Seq<char>, ValueModel> {
        prop_models(self.cells@)
    }
}

/// A store holds finitely many keys.
pub proof fn lemma_store_finite(s: Store)
    ensures
        s@.dom().finite(),
{
    lemma_text_map_finite(s.cells);
    assert(s@.dom() =~= s.cells@.dom());
}

impl Store {
    /// How many writes the store has taken.
    pub closed spec fn ticks(&self) -> u64 {
        self.tick
    }

    /// An empty store.
    pub fn new() -> (r: Store)
        ensures
            r@ == Map::<Seq<char>, ValueModel>::empty(),
            r.ticks() == 0,
    {
        let r = Store { cells: TextMap::new(), tick: 0 };
        assert(r@ =~= Map::<Seq<char>, ValueModel>::empty());
        r
    }

    /// A number that grows by one with every [`Store::set`].
    pub fn change_tick(&self) -> (r: u64)
        ensures
            r == self.ticks(),
    {
        self.tick
    }

    /// Puts `value` under `key` and counts the write.
    pub fn set(&mut self, key: &str, value: Value)
        requires
            old(self).ticks() < u64::MAX,
        ensures
            final(self)@ == old(self)@.insert(key@, value@),
            final(self).ticks() == old(self).ticks() + 1,
    {
        let ghost was = self.cells@;
        self.cells.insert(copy(key), value);
        self.tick = self.tick + 1;
        assert(prop_models(self.cells@) =~= prop_models(was).insert(key@, value@));
    }

    /// The value under `key`, if one was set.
    pub fn get(&self, key: &str) -> (r: Option<Value>)
        ensures
            r is Some <==> self@.dom().contains(key@),
            r matches Some(v) ==> v@ == self@[key@],
    {
        match self.cells.get(key) {
            Some(v) => Some(v.clone()),
            None => None,
        }
    }
}

impl Default for Store {
    fn default() -> (r: Store)
        ensures
            r@ == Map::<Seq<char>, ValueModel>::empty(),
            r.ticks() == 0,
    {
        Store::new()
    }
}

impl Clone for Store {
    /// A copy with the same entries and the same count of writes. The two share nothing: what is
    /// written to one is not seen in the other.
    fn clone(&self) -> (r: Store)
        ensures
            r@ == self@,
            r.ticks() == self.ticks(),
    {
        let r = Store { cells: self.cells.clone(), tick: self.tick };
        proof {
            assert forall|k: Seq<char>| #[trigger] self@.dom().contains(k) implies r@[k] == self@[k] by {
                assert(cloned::<Value>(self.cells@[k], r.cells@[k]));
            }
            assert(r@ =~= self@);
        }
        r
    }
}

/// The text with every `from` replaced by a backslash and `to`.
pub open spec fn masked(s: Seq<char>, from: char, to: char) -> Seq<char>
    decreases s.len(),
{
    if s.len() == 0 {
        s
    } else if s[0] == from {
        seq!['\\', to] + masked(s.skip(1), from, to)
    } else {
        seq![s[0]] + masked(s.skip(1), from, to)
    }
}

fn mask(s: &str, from: char, to: char) -> (r: String)
    ensures
        r@ == masked(s@, from, to),
{
    let cs = chars_of(s);
    let mut out = String::new();
    let mut i: usize = 0;
    assert(cs@.skip(0) =~= cs@);
    assert(out@ + masked(cs@, from, to) =~= masked(cs@, from, to));
    while i < cs.len()
        invariant
            cs@ == s@,
            i <= cs@.len(),
            out@ + masked(cs@.skip(i as int), from, to) == masked(s@, from, to),
        decreases cs.len() - i,
    {
        let ghost so_far = out@;
        let ghost rest = cs@.skip(i as int);
        assert(rest.skip(1) =~= cs@.skip(i + 1));
        if cs[i] == from {
            out.push('\\');
            out.push(to);
        } else {
            out.push(cs[i]);
        }
        i += 1;
        assert(out@ + masked(cs@.skip(i as int), from, to) =~= so_far + masked(rest, from, to));
    }
    assert(out@ + masked(cs@.skip(i as int), from, to) =~= out@);
    out
}

/// The text with every backslash and `from` replaced by `to`, found left to right.
pub open spec fn unmasked(s: Seq<char>, from: char, to: char) -> Seq<char>
    decreases s.len(),
{
    if s.len() == 0 {
        s
    } else if s[0] == '\\' && s.len() > 1 && s[1] == from {
        seq![to] + unmasked(s.skip(2), from, to)
    } else {
        seq![s[0]] + unmasked(s.skip(1), from, to)
    }
}

fn unmask(s: &str, from: char, to: char) -> (r: String)
    ensures
        r@ == unmasked(s@, from, to),
{
    let cs = chars_of(s);
    let mut out = String::new();
    let mut i: usize = 0;
    assert(cs@.skip(0) =~= cs@);
    assert(out@ + unmasked(s@, from, to) =~= unmasked(s@, from, to));
    while i < cs.len()
        invariant
            cs@ == s@,
            i <= cs@.len(),
            out@ + unmasked(cs@.skip(i as int), from, to) == unmasked(s@, from, to),
        decreases cs.len() - i,
    {
        let ghost so_far = out@;
        let ghost rest = cs@.skip(i as int);
        if cs[i] == '\\' && cs.len() - i > 1 && cs[i + 1] == from {
            assert(rest.skip(2) =~= cs@.skip(i + 2));
            out.push(to);
            i += 2;
        } else {
            assert(rest.skip(1) =~= cs@.skip(i + 1));
            out.push(cs[i]);
            i += 1;
        }
        assert(out@ + unmasked(cs@.skip(i as int), from, to) =~= so_far + unmasked(rest, from, to));
    }
    assert(out@ + unmasked(cs@.skip(i as int), from, to) =~= out@);
    out
}

/// The character of a hexadecimal digit, in upper case.
pub open spec fn hex_char(d: int) -> char {
    if d < 10 {
        (48 + d) as char
    } else {
        (55 + d) as char
    }
}

/// The last `n` hexadecimal digits of a number, in upper case.
pub open spec fn hex_digits(v: int, n: nat) -> Seq<char>
    decreases n,
{
    if n == 0 {
        Seq::empty()
    } else {
        hex_digits(v / 16, (n - 1) as nat).push(hex_char(v % 16))
    }
}

fn hex_text(v: u32, n: u8) -> (r: String)
    ensures
        r@ == hex_digits(v as int, n as nat),
    decreases n,
{
    if n == 0 {
        let out = String::new();
        assert(out@ =~= Seq::<char>::empty());
        out
    } else {
        let mut out = hex_text(v / 16, n - 1);
        let d: u8 = (v % 16) as u8;
        let x: u8 = if d < 10 {
            48 + d
        } else {
            55 + d
        };
        let c: char = x as char;
        assert(c == hex_char((v % 16) as int));
        out.push(c);
        out
    }
}

/// The name of a value's type and the text of its content.
pub open spec fn encoded(v: ValueModel, p: Printer) -> (Seq<char>, Seq<char>) {
    match v {
        ValueModel::Bool(b) => ("bool"@, if b {
            "true"@
        } else {
            "false"@
        }),
        ValueModel::Int(n) => ("int"@, signed_decimal(n as int)),
        ValueModel::Float(f) => ("float"@, p(FloatText::Double(f))),
        ValueModel::Text(s) => ("text"@, masked(masked(s, '\n', 'n'), '\t', 't')),
        ValueModel::Color(c) => ("color"@, hex_digits(c as int, 8)),
        ValueModel::Px(f) => ("px"@, p(FloatText::Single(f))),
        ValueModel::List(items) => ("list"@, decimal(items.len())),
    }
}

fn encode_value<P: Fn(FloatText) -> String>(v: &Value, p: &P) -> (r: (String, String))
    requires
        prints(*p),
    ensures
        (r.0@, r.1@) == encoded(v@, printer(*p)),
{
    match v {
        Value::Bool(b) => (copy("bool"), if *b {
            copy("true")
        } else {
            copy("false")
        }),
        Value::Int(n) => (copy("int"), signed_decimal_text(*n)),
        Value::Float(f) => (copy("float"), print(p, FloatText::Double(*f))),
        Value::Text(s) => {
            let m = mask(s.as_str(), '\n', 'n');
            (copy("text"), mask(m.as_str(), '\t', 't'))
        },
        Value::Color(c) => (copy("color"), hex_text(*c, 8)),
        Value::Px(f) => (copy("px"), print(p, FloatText::Single(*f))),
        Value::List(items) => (copy("list"), decimal_text(items.len() as u64)),
    }
}

/// A text without one leading plus sign.
pub open spec fn unsigned(s: Seq<char>) -> Seq<char> {
    if s.len() > 0 && s[0] == '+' {
        s.skip(1)
    } else {
        s
    }
}

/// The value that a type name and a content stand for.
pub open spec fn decoded(ty: Seq<char>, val: Seq<char>, fl: Unit) -> Option<ValueModel> {
    if ty == "bool"@ {
        Some(ValueModel::Bool(val == "true"@))
    } else if ty == "int"@ {
        match integer64(val) {
            Some(n) => Some(ValueModel::Int(n)),
            None => None,
        }
    } else if ty == "float"@ {
        match fl(FloatQuery::Read { text: val }) {
            Some(b) => Some(ValueModel::Float(b)),
            None => None,
        }
    } else if ty == "text"@ {
        Some(ValueModel::Text(unmasked(unmasked(val, 'n', '\n'), 't', '\t')))
    } else if ty == "color"@ {
        if is_hex_u32(unsigned(val)) {
            Some(ValueModel::Color(hex_value(unsigned(val)) as u32))
        } else {
            None
        }
    } else if ty == "px"@ {
        match fl(FloatQuery::ReadSingle { text: val }) {
            Some(b) => Some(ValueModel::Px(crate::float::low_half(b))),
            None => None,
        }
    } else {
        None
    }
}

fn without_plus(s: &str) -> (r: String)
    ensures
        r@ == unsigned(s@),
{
    let cs = chars_of(s);
    if cs.len() > 0 && cs[0] == '+' {
        part(&cs, 1, cs.len())
    } else {
        copy(s)
    }
}

fn decode_value<F: Fn(&FloatOp) -> Option<u64>>(ty: &str, val: &str, fl: &F) -> (r: Option<Value>)
    requires
        steady(*fl),
    ensures
        match r {
            Some(v) => decoded(ty@, val@, unit(*fl)) == Some(v@),
            None => decoded(ty@, val@, unit(*fl)) is None,
        },
{
    if same(ty, "bool") {
        Some(Value::Bool(same(val, "true")))
    } else if same(ty, "int") {
        match parse_i64(val) {
            Some(n) => Some(Value::Int(n)),
            None => None,
        }
    } else if same(ty, "float") {
        match ask(fl, &FloatOp::Read { text: copy(val) }) {
            Some(b) => Some(Value::Float(b)),
            None => None,
        }
    } else if same(ty, "text") {
        let m = unmask(val, 'n', '\n');
        Some(Value::Text(unmask(m.as_str(), 't', '\t')))
    } else if same(ty, "color") {
        let digits = without_plus(val);
        match parse_hex(digits.as_str()) {
            Some(c) => Some(Value::Color(c)),
            None => None,
        }
    } else if same(ty, "px") {
        match ask(fl, &FloatOp::ReadSingle { text: copy(val) }) {
            Some(b) => Some(Value::Px((b % 0x1_0000_0000) as u32)),
            None => None,
        }
    } else {
        None
    }
}

fn part(cs: &Vec<char>, from: usize, to: usize) -> (r: String)
    requires
        from <= to <= cs@.len(),
    ensures
        r@ == cs@.subrange(from as int, to as int),
{
    let mut out = String::new();
    let mut i: usize = from;
    assert(cs@.subrange(from as int, from as int) =~= Seq::<char>::empty());
    assert(out@ =~= Seq::<char>::empty());
    while i < to
        invariant
            from <= i <= to <= cs@.len(),
            out@ == cs@.subrange(from as int, i as int),
        decreases to - i,
    {
        out.push(cs[i]);
        i += 1;
        assert(out@ =~= cs@.subrange(from as int, i as int));
    }
    out
}

/// The line of a snapshot that stands for one entry.
pub open spec fn entry_line(k: Seq<char>, v: ValueModel, p: Printer) -> Seq<char> {
    k + seq!['\t'] + encoded(v, p).0 + seq!['\t'] + encoded(v, p).1 + seq!['\n']
}

/// The lines of the entries under the first `n` of the keys.
pub open spec fn entry_lines(
    m: Map<Seq<char>, ValueModel>,
    keys: Seq<Seq<char>>,
    n: int,
    p: Printer,
) -> Seq<char>
    decreases n,
{
    if n <= 0 {
        Seq::empty()
    } else {
        entry_lines(m, keys, n - 1, p) + entry_line(keys[n - 1], m[keys[n - 1]], p)
    }
}

/// The snapshot of a store: one line for each entry, in the order of the keys.
pub open spec fn snapshot_of(m: Map<Seq<char>, ValueModel>, p: Printer) -> Seq<char> {
    entry_lines(m, in_order(m.dom()), in_order(m.dom()).len() as int, p)
}

/// Where the next `c` stands, from `i` on; the end when there is none.
pub open spec fn find(s: Seq<char>, i: int, c: char) -> int
    decreases s.len() - i,
{
    if i < 0 || i >= s.len() {
        s.len() as int
    } else if s[i] == c {
        i
    } else {
        find(s, i + 1, c)
    }
}

pub proof fn lemma_find(s: Seq<char>, i: int, c: char)
    requires
        0 <= i <= s.len(),
    ensures
        i <= find(s, i, c) <= s.len(),
        forall|j: int| i <= j < find(s, i, c) ==> #[trigger] s[j] != c,
        find(s, i, c) < s.len() ==> s[find(s, i, c)] == c,
    decreases s.len() - i,
{
    if i < s.len() && s[i] != c {
        lemma_find(s, i + 1, c);
    }
}

/// Where the first `c` stands at or after `i`, which may be the end of the text.
fn find_char(cs: &Vec<char>, i: usize, c: char) -> (r: usize)
    requires
        i <= cs@.len(),
    ensures
        r == find(cs@, i as int, c),
        i <= r <= cs@.len(),
{
    let mut j: usize = i;
    while j < cs.len() && cs[j] != c
        invariant
            i <= j <= cs@.len(),
            find(cs@, i as int, c) == find(cs@, j as int, c),
        decreases cs.len() - j,
    {
        j += 1;
    }
    j
}

/// The line between two places, without a carriage return at its end where a line feed follows.
pub open spec fn line_text(s: Seq<char>, from: int, to: int) -> Seq<char> {
    if to < s.len() && to > from && s[to - 1] == '\r' {
        s.subrange(from, to - 1)
    } else {
        s.subrange(from, to)
    }
}

/// The entry that a line stands for: a key, a type name and a content, between tabs.
pub open spec fn line_entry(line: Seq<char>, fl: Unit) -> Option<(Seq<char>, ValueModel)> {
    let a = find(line, 0, '\t');
    let b = find(line, a + 1, '\t');
    if a < line.len() && b < line.len() {
        match decoded(line.subrange(a + 1, b), line.skip(b + 1), fl) {
            Some(v) => Some((line.take(a), v)),
            None => None,
        }
    } else {
        None
    }
}

/// The entries of a snapshot from a place on, line by line.
pub open spec fn entries_from(s: Seq<char>, i: int, fl: Unit) -> Seq<(Seq<char>, ValueModel)>
    decreases s.len() - i,
{
    if i < 0 || i >= s.len() {
        Seq::empty()
    } else {
        let e = find(s, i, '\n');
        let rest = if i <= e < s.len() {
            entries_from(s, e + 1, fl)
        } else {
            Seq::empty()
        };
        match line_entry(line_text(s, i, e), fl) {
            Some(x) => seq![x] + rest,
            None => rest,
        }
    }
}

/// The entries of a snapshot, in the order of its lines.
pub open spec fn entries(s: Seq<char>, fl: Unit) -> Seq<(Seq<char>, ValueModel)> {
    entries_from(s, 0, fl)
}

/// A map with entries written over it, first to last.
pub open spec fn overlaid(
    m: Map<Seq<char>, ValueModel>,
    es: Seq<(Seq<char>, ValueModel)>,
) -> Map<Seq<char>, ValueModel>
    decreases es.len(),
{
    if es.len() == 0 {
        m
    } else {
        overlaid(m, es.drop_last()).insert(es.last().0, es.last().1)
    }
}

fn read_line<F: Fn(&FloatOp) -> Option<u64>>(cs: &Vec<char>, from: usize, to: usize, fl: &F) -> (r:
    Option<(String, Value)>)
    requires
        steady(*fl),
        from <= to <= cs@.len(),
    ensures
        match r {
            Some(e) => line_entry(cs@.subrange(from as int, to as int), unit(*fl)) == Some(
                (e.0@, e.1@),
            ),
            None => line_entry(cs@.subrange(from as int, to as int), unit(*fl)) is None,
        },
{
    let text = part(cs, from, to);
    let line = chars_of(text.as_str());
    let a: usize = find_char(&line, 0, '\t');
    if a >= line.len() {
        return None;
    }
    let b: usize = find_char(&line, a + 1, '\t');
    if b >= line.len() {
        return None;
    }
    let key = part(&line, 0, a);
    let ty = part(&line, a + 1, b);
    let val = part(&line, b + 1, line.len());
    assert(line@.subrange(0, a as int) =~= line@.take(a as int));
    assert(line@.subrange(b + 1, line@.len() as int) =~= line@.skip(b + 1));
    match decode_value(ty.as_str(), val.as_str(), fl) {
        Some(v) => Some((key, v)),
        None => None,
    }
}

pub proof fn lemma_overlaid_push(
    m: Map<Seq<char>, ValueModel>,
    es: Seq<(Seq<char>, ValueModel)>,
    e: (Seq<char>, ValueModel),
)
    ensures
        overlaid(m, es.push(e)) == overlaid(m, es).insert(e.0, e.1),
{
    assert(es.push(e).drop_last() =~= es);
}

impl Store {
    /// The store as text: a line `key`, tab, type name, tab, content for each entry, in the order
    /// of the keys. Of a list only its length is written.
    pub fn snapshot<P: Fn(FloatText) -> String>(&self, p: &P) -> (r: String)
        requires
            prints(*p),
        ensures
            r@ == snapshot_of(self@, printer(*p)),
    {
        let mut out = String::new();
        let n: usize = self.cells.len();
        let ghost keys = in_order(self@.dom());
        assert(self@.dom() =~= self.cells@.dom());
        let mut i: usize = 0;
        assert(out@ =~= Seq::<char>::empty());
        while i < n
            invariant
                prints(*p),
                n == in_order(self.cells@.dom()).len(),
                keys == in_order(self.cells@.dom()),
                self@ == prop_models(self.cells@),
                i <= n,
                out@ == entry_lines(self@, keys, i as int, printer(*p)),
            decreases n - i,
        {
            let ghost so_far = out@;
            let (k, v) = self.cells.entry(i);
            let (ty, val) = encode_value(v, p);
            out.append(k.as_str());
            out.push('\t');
            out.append(ty.as_str());
            out.push('\t');
            out.append(val.as_str());
            out.push('\n');
            i += 1;
            assert(out@ =~= so_far + entry_line(k@, v@, printer(*p)));
        }
        out
    }

    /// Writes the entries of a snapshot into the store and returns how many there were. A line
    /// that is no entry is passed over.
    pub fn restore<F: Fn(&FloatOp) -> Option<u64>>(&mut self, snapshot: &str, fl: &F) -> (r: usize)
        requires
            steady(*fl),
            old(self).ticks() + entries(snapshot@, unit(*fl)).len() <= u64::MAX,
        ensures
            r == entries(snapshot@, unit(*fl)).len(),
            final(self)@ == overlaid(old(self)@, entries(snapshot@, unit(*fl))),
            final(self).ticks() == old(self).ticks() + r,
    {
        let cs = chars_of(snapshot);
        let mut i: usize = 0;
        let mut count: usize = 0;
        let ghost all = entries(snapshot@, unit(*fl));
        let ghost mut done = Seq::<(Seq<char>, ValueModel)>::empty();
        assert(done + all =~= all);
        while i < cs.len()
            invariant
                steady(*fl),
                cs@ == snapshot@,
                i <= cs@.len(),
                count <= i,
                count == done.len(),
                done + entries_from(snapshot@, i as int, unit(*fl)) == all,
                self@ == overlaid(old(self)@, done),
                self.ticks() == old(self).ticks() + count,
                old(self).ticks() + all.len() <= u64::MAX,
            decreases cs.len() - i,
        {
            let ghost rest = entries_from(snapshot@, i as int, unit(*fl));
            let ghost before_it = done;
            let e: usize = find_char(&cs, i, '\n');
            let to: usize = if e < cs.len() && e > i && cs[e - 1] == '\r' {
                e - 1
            } else {
                e
            };
            assert(line_text(snapshot@, i as int, e as int) == cs@.subrange(i as int, to as int));
            let from: usize = i;
            let item = read_line(&cs, i, to, fl);
            i = if e < cs.len() {
                e + 1
            } else {
                e
            };
            proof {
                if e == cs@.len() {
                    assert(entries_from(snapshot@, e + 1, unit(*fl)) =~= Seq::empty());
                    assert(entries_from(snapshot@, e as int, unit(*fl)) =~= Seq::empty());
                }
            }
            match item {
                Some((k, v)) => {
                    proof {
                        let x = (k@, v@);
                        let tail = entries_from(snapshot@, i as int, unit(*fl));
                        assert(rest == seq![x] + tail);
                        done = before_it.push(x);
                        assert(done + tail =~= before_it + rest);
                        assert(done.len() <= all.len());
                        lemma_overlaid_push(old(self)@, before_it, x);
                    }
                    assert(from < to) by {
                        if from >= to {
                            let l = cs@.subrange(from as int, to as int);
                            assert(l.len() == 0);
                            assert(find(l, 0, '\t') == 0);
                        }
                    }
                    self.set(k.as_str(), v);
                    count += 1;
                },
                None => {},
            }
        }
        assert(entries_from(snapshot@, i as int, unit(*fl)) =~= Seq::empty());
        assert(done =~= all);
        count
    }
}

} // verus!
