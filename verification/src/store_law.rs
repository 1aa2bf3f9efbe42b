//! What a snapshot keeps: reading one back gives the entries that were written.
use vstd::prelude::*;

use crate::float::{low_half, nan, nan32, FloatQuery, Unit};
use crate::scan::{hex_digit, hex_value, is_hex, is_hex_u32};
use crate::store::{
    decoded, encoded, entries, entries_from, entry_line, entry_lines, find, hex_char, hex_digits,
    lemma_store_finite, line_entry, line_text, masked, overlaid, snapshot_of, unmasked, unsigned, FloatText, Printer,
    Store,
};
use crate::text::{all_digits, decimal, digits_value, in_order, integer, is_digit, signed_decimal};
use crate::text_map::lemma_increasing_distinct;
use crate::value::ValueModel;

verus! {

/// The text does not hold the character.
pub open spec fn lacks(s: Seq<char>, c: char) -> bool {
    forall|i: int| 0 <= i < s.len() ==> #[trigger] s[i] != c
}

/// The text holds neither a tab nor a line feed.
pub open spec fn one_field(s: Seq<char>) -> bool {
    forall|i: int| 0 <= i < s.len() ==> #[trigger] s[i] != '\t' && s[i] != '\n'
}

/// The text holds no backslash that an `n` or a `t` follows.
pub open spec fn unescaped(s: Seq<char>) -> bool {
    forall|i: int|
        0 <= i < s.len() - 1 && #[trigger] s[i] == '\\' ==> s[i + 1] != 'n' && s[i + 1] != 't'
}

/// The text ends in a carriage return.
pub open spec fn ends_in_return(s: Seq<char>) -> bool {
    s.len() > 0 && s.last() == '\r'
}

/// A value that a snapshot keeps: a text whose line is not cut short or read as an escape, a
/// number whose printed text is read back as itself, or a value of another type.
pub open spec fn kept(v: ValueModel, p: Printer, fl: Unit) -> bool {
    match v {
        ValueModel::Text(s) => unescaped(s) && !ends_in_return(s),
        ValueModel::Float(b) => {
            let t = p(FloatText::Double(b));
            one_field(t) && !ends_in_return(t) && fl(FloatQuery::Read { text: t }) == Some(b)
        },
        ValueModel::Px(b) => {
            let t = p(FloatText::Single(b));
            one_field(t) && !ends_in_return(t) && match fl(FloatQuery::ReadSingle { text: t }) {
                Some(x) => low_half(x) == b,
                None => false,
            }
        },
        _ => true,
    }
}

proof fn lemma_mask_tab(s: Seq<char>)
    requires
        unescaped(s),
    ensures
        unmasked(masked(s, '\t', 't'), 't', '\t') == s,
    decreases s.len(),
{
    if s.len() > 0 {
        let r = s.skip(1);
        assert forall|i: int| 0 <= i < r.len() - 1 && #[trigger] r[i] == '\\' implies r[i + 1] != 'n'
            && r[i + 1] != 't' by {
            assert(r[i] == s[i + 1]);
        }
        lemma_mask_tab(r);
        let m = masked(s, '\t', 't');
        let x = masked(r, '\t', 't');
        if s[0] == '\t' {
            assert(m.skip(2) =~= x);
            assert(unmasked(m, 't', '\t') =~= s);
        } else {
            assert(m.skip(1) =~= x);
            if s[0] == '\\' && m.len() > 1 && m[1] == 't' {
                assert(x[0] == m[1]);
                assert(r.len() > 0 && r[0] == 't');
                assert(s[1] == 't');
                assert(false);
            }
            assert(unmasked(m, 't', '\t') =~= s);
        }
    }
}

proof fn lemma_mask_line(s: Seq<char>)
    requires
        unescaped(s),
    ensures
        unmasked(masked(masked(s, '\n', 'n'), '\t', 't'), 'n', '\n') == masked(s, '\t', 't'),
    decreases s.len(),
{
    if s.len() > 0 {
        let r = s.skip(1);
        assert forall|i: int| 0 <= i < r.len() - 1 && #[trigger] r[i] == '\\' implies r[i + 1] != 'n'
            && r[i + 1] != 't' by {
            assert(r[i] == s[i + 1]);
        }
        lemma_mask_line(r);
        let m1 = masked(s, '\n', 'n');
        let x1 = masked(r, '\n', 'n');
        let m = masked(m1, '\t', 't');
        let x = masked(x1, '\t', 't');
        if s[0] == '\n' {
            assert(m1.skip(1) =~= seq!['n'] + x1);
            assert(m1.skip(1).skip(1) =~= x1);
            reveal_with_fuel(masked, 3);
            assert(m =~= seq!['\\', 'n'] + x);
            assert(m.skip(2) =~= x);
            assert(unmasked(m, 'n', '\n') =~= seq!['\n'] + unmasked(x, 'n', '\n'));
        } else if s[0] == '\t' {
            assert(m1.skip(1) =~= x1);
            assert(m =~= seq!['\\', 't'] + x);
            assert(m.skip(1).skip(1) =~= x);
            reveal_with_fuel(unmasked, 3);
            assert(unmasked(m, 'n', '\n') =~= seq!['\\', 't'] + unmasked(x, 'n', '\n'));
        } else {
            assert(m1.skip(1) =~= x1);
            assert(m =~= seq![s[0]] + x);
            assert(m.skip(1) =~= x);
            if s[0] == '\\' && m.len() > 1 && m[1] == 'n' {
                assert(x[0] == 'n');
                assert(x1.len() > 0 && x1[0] == 'n');
                assert(r.len() > 0 && r[0] == 'n');
                assert(s[1] == 'n');
                assert(false);
            }
            assert(unmasked(m, 'n', '\n') =~= seq![s[0]] + unmasked(x, 'n', '\n'));
        }
    }
}

proof fn lemma_masked_clean(s: Seq<char>, from: char, to: char)
    requires
        from != '\\',
        from != to,
    ensures
        lacks(masked(s, from, to), from),
        forall|c: char|
            c != '\\' && c != to && #[trigger] lacks(s, c) ==> lacks(masked(s, from, to), c),
        masked(s, from, to).len() >= s.len(),
        s.len() > 0 && s.last() != from ==> masked(s, from, to).last() == s.last(),
        s.len() > 0 && s.last() == from ==> masked(s, from, to).last() == to,
    decreases s.len(),
{
    if s.len() > 0 {
        let r = s.skip(1);
        lemma_masked_clean(r, from, to);
        let m = masked(s, from, to);
        let x = masked(r, from, to);
        let n: int = if s[0] == from { 2 } else { 1 };
        assert(m.skip(n) =~= x);
        assert forall|i: int| 0 <= i < m.len() implies #[trigger] m[i] != from by {
            if i >= n {
                assert(m[i] == x[i - n]);
            }
        }
        assert forall|c: char| c != '\\' && c != to && #[trigger] lacks(s, c) implies lacks(m, c) by {
            assert forall|i: int| 0 <= i < r.len() implies #[trigger] r[i] != c by {
                assert(r[i] == s[i + 1]);
            }
            assert(lacks(r, c));
            assert forall|i: int| 0 <= i < m.len() implies #[trigger] m[i] != c by {
                if i >= n {
                    assert(m[i] == x[i - n]);
                } else {
                    assert(s[0] != c);
                }
            }
        }
        if s.len() > 1 {
            assert(r.last() == s.last());
            assert(m.last() == x.last());
        } else {
            assert(r =~= Seq::empty());
            assert(x =~= Seq::empty());
        }
    }
}

proof fn lemma_text_kept(s: Seq<char>)
    requires
        unescaped(s),
        !ends_in_return(s),
    ensures
        ({
            let t = masked(masked(s, '\n', 'n'), '\t', 't');
            &&& one_field(t)
            &&& !ends_in_return(t)
            &&& unmasked(unmasked(t, 'n', '\n'), 't', '\t') == s
        }),
{
    let m = masked(s, '\n', 'n');
    lemma_mask_line(s);
    lemma_mask_tab(s);
    lemma_masked_clean(s, '\n', 'n');
    lemma_masked_clean(m, '\t', 't');
    let t = masked(m, '\t', 't');
    assert(lacks(m, '\n') && lacks(t, '\n') && lacks(t, '\t'));
    if t.len() > 0 {
        if s.len() == 0 {
            assert(m =~= Seq::empty());
            assert(t =~= Seq::empty());
        }
    }
}

/// The decimal text of a number is all digits and stands for that number.
pub proof fn lemma_decimal_value(n: nat)
    ensures
        all_digits(decimal(n)),
        digits_value(decimal(n)) == n,
    decreases n,
{
    reveal_with_fuel(digits_value, 2);
    if n < 10 {
        assert(decimal(n).drop_last() =~= Seq::empty());
    } else {
        lemma_decimal_value(n / 10);
        let d = decimal(n);
        assert(d.drop_last() =~= decimal(n / 10));
        assert forall|i: int| 0 <= i < d.len() implies is_digit(#[trigger] d[i]) by {
            if i < d.len() - 1 {
                assert(d[i] == decimal(n / 10)[i]);
            }
        }
    }
}

proof fn lemma_int_kept(n: i64)
    ensures
        ({
            let t = signed_decimal(n as int);
            &&& one_field(t)
            &&& !ends_in_return(t)
            &&& integer(t) == Some(n as int)
        }),
{
    let t = signed_decimal(n as int);
    if n < 0 {
        let m = (-(n as int)) as nat;
        lemma_decimal_value(m);
        let d = decimal(m);
        assert(t.skip(1) =~= d);
        assert forall|i: int| 0 <= i < t.len() implies #[trigger] t[i] != '\t' && t[i] != '\n' by {
            if i > 0 {
                assert(t[i] == d[i - 1]);
            }
        }
        assert(t.last() == d.last());
        assert(is_digit(d[d.len() - 1]));
    } else {
        lemma_decimal_value(n as nat);
        assert(is_digit(t[0]));
        assert(is_digit(t[t.len() - 1]));
    }
}

spec fn hex_room(n: nat) -> int
    decreases n,
{
    if n == 0 {
        1
    } else {
        16 * hex_room((n - 1) as nat)
    }
}

proof fn lemma_hex_digits(v: int, n: nat)
    requires
        0 <= v < hex_room(n),
    ensures
        hex_digits(v, n).len() == n,
        forall|i: int| 0 <= i < n ==> is_hex(#[trigger] hex_digits(v, n)[i]),
        hex_value(hex_digits(v, n)) == v,
    decreases n,
{
    if n > 0 {
        lemma_hex_digits(v / 16, (n - 1) as nat);
        let t = hex_digits(v, n);
        assert(t.drop_last() =~= hex_digits(v / 16, (n - 1) as nat));
        assert(is_hex(hex_char(v % 16)) && hex_digit(hex_char(v % 16)) == v % 16);
        assert forall|i: int| 0 <= i < n implies is_hex(#[trigger] t[i]) by {
            if i < n - 1 {
                assert(t[i] == hex_digits(v / 16, (n - 1) as nat)[i]);
            }
        }
    }
}

proof fn lemma_color_kept(c: u32)
    ensures
        ({
            let t = hex_digits(c as int, 8);
            &&& one_field(t)
            &&& !ends_in_return(t)
            &&& unsigned(t) == t
            &&& is_hex_u32(t)
            &&& hex_value(t) == c
        }),
{
    reveal_with_fuel(hex_room, 9);
    assert(hex_room(8) == 0x1_0000_0000);
    lemma_hex_digits(c as int, 8);
    let t = hex_digits(c as int, 8);
    assert forall|i: int| 0 <= i < t.len() implies #[trigger] t[i] != '\t' && t[i] != '\n' by {
        assert(is_hex(t[i]));
    }
    assert(is_hex(t[0]));
    assert(is_hex(t[7]));
}

/// What one kept entry becomes when it is read back: itself, or nothing when it is a list.
pub open spec fn read_back(k: Seq<char>, v: ValueModel) -> Option<(Seq<char>, ValueModel)> {
    if v is List {
        None
    } else {
        Some((k, v))
    }
}

proof fn lemma_names()
    ensures
        one_field("bool"@),
        one_field("int"@),
        one_field("float"@),
        one_field("text"@),
        one_field("color"@),
        one_field("px"@),
        one_field("list"@),
        one_field("true"@),
        one_field("false"@),
        !ends_in_return("true"@),
        !ends_in_return("false"@),
        "true"@ != "false"@,
        "int"@ != "bool"@,
        "float"@ != "bool"@,
        "float"@ != "int"@,
        "text"@ != "bool"@,
        "text"@ != "int"@,
        "text"@ != "float"@,
        "color"@ != "bool"@,
        "color"@ != "int"@,
        "color"@ != "float"@,
        "color"@ != "text"@,
        "px"@ != "bool"@,
        "px"@ != "int"@,
        "px"@ != "float"@,
        "px"@ != "text"@,
        "px"@ != "color"@,
        "list"@ != "bool"@,
        "list"@ != "int"@,
        "list"@ != "float"@,
        "list"@ != "text"@,
        "list"@ != "color"@,
        "list"@ != "px"@,
{
    reveal_strlit("bool");
    reveal_strlit("int");
    reveal_strlit("float");
    reveal_strlit("text");
    reveal_strlit("color");
    reveal_strlit("px");
    reveal_strlit("list");
    reveal_strlit("true");
    reveal_strlit("false");
    assert("bool"@[0] == 'b');
    assert("int"@[0] == 'i');
    assert("float"@[0] == 'f');
    assert("text"@[0] == 't');
    assert("color"@[0] == 'c');
    assert("px"@[0] == 'p');
    assert("list"@[0] == 'l');
    assert("true"@[0] == 't');
    assert("false"@[0] == 'f');
}

proof fn lemma_value_kept(v: ValueModel, p: Printer, fl: Unit)
    requires
        kept(v, p, fl),
    ensures
        one_field(encoded(v, p).0),
        one_field(encoded(v, p).1),
        !ends_in_return(encoded(v, p).1),
        match decoded(encoded(v, p).0, encoded(v, p).1, fl) {
            Some(w) => !(v is List) && w == v,
            None => v is List,
        },
{
    lemma_names();
    match v {
        ValueModel::Text(s) => {
            lemma_text_kept(s);
        },
        ValueModel::Int(n) => {
            lemma_int_kept(n);
        },
        ValueModel::Color(c) => {
            lemma_color_kept(c);
        },
        ValueModel::List(items) => {
            lemma_decimal_value(items.len());
            let t = decimal(items.len());
            assert(is_digit(t[t.len() - 1]));
        },
        _ => {},
    }
}

proof fn lemma_find_is(s: Seq<char>, i: int, c: char, j: int)
    requires
        0 <= i <= j < s.len(),
        s[j] == c,
        forall|k: int| i <= k < j ==> #[trigger] s[k] != c,
    ensures
        find(s, i, c) == j,
    decreases j - i,
{
    if i < j {
        lemma_find_is(s, i + 1, c, j);
    }
}

proof fn lemma_line_kept(k: Seq<char>, v: ValueModel, p: Printer, fl: Unit)
    requires
        one_field(k),
        kept(v, p, fl),
    ensures
        ({
            let l = entry_line(k, v, p);
            let line = l.drop_last();
            &&& l.len() > 0
            &&& l.last() == '\n'
            &&& forall|i: int| 0 <= i < line.len() ==> #[trigger] line[i] != '\n'
            &&& !ends_in_return(line)
            &&& line_entry(line, fl) == read_back(k, v)
        }),
{
    let l = entry_line(k, v, p);
    let (ty, val) = encoded(v, p);
    lemma_value_kept(v, p, fl);
    let line = l.drop_last();
    let a = k.len() as int;
    let b = a + 1 + ty.len();
    assert(line =~= k + seq!['\t'] + ty + seq!['\t'] + val);
    assert(line.take(a) =~= k);
    assert(line.subrange(a + 1, b) =~= ty);
    assert(line.skip(b + 1) =~= val);
    assert forall|i: int| 0 <= i < line.len() implies #[trigger] line[i] != '\n' by {
        if i < a {
            assert(line[i] == k[i]);
        } else if a < i < b {
            assert(line[i] == ty[i - a - 1]);
        } else if i > b {
            assert(line[i] == val[i - b - 1]);
        }
    }
    assert forall|i: int| 0 <= i < a implies #[trigger] line[i] != '\t' by {
        assert(line[i] == k[i]);
    }
    lemma_find_is(line, 0, '\t', a);
    assert forall|i: int| a + 1 <= i < b implies #[trigger] line[i] != '\t' by {
        assert(line[i] == ty[i - a - 1]);
    }
    lemma_find_is(line, a + 1, '\t', b);
    if val.len() > 0 {
        assert(line.last() == val.last());
    }
}

/// The entries that the lines of the keys from `i` on give when they are read back.
pub open spec fn survivors(
    m: Map<Seq<char>, ValueModel>,
    keys: Seq<Seq<char>>,
    i: int,
) -> Seq<(Seq<char>, ValueModel)>
    decreases keys.len() - i,
{
    if i < 0 || i >= keys.len() {
        Seq::empty()
    } else {
        match read_back(keys[i], m[keys[i]]) {
            Some(e) => seq![e] + survivors(m, keys, i + 1),
            None => survivors(m, keys, i + 1),
        }
    }
}

proof fn lemma_lines_prefix(
    m: Map<Seq<char>, ValueModel>,
    keys: Seq<Seq<char>>,
    i: int,
    n: int,
    p: Printer,
)
    requires
        0 <= i <= n,
    ensures
        entry_lines(m, keys, i, p).len() <= entry_lines(m, keys, n, p).len(),
        entry_lines(m, keys, n, p).take(entry_lines(m, keys, i, p).len() as int) == entry_lines(
            m,
            keys,
            i,
            p,
        ),
    decreases n,
{
    let a = entry_lines(m, keys, i, p);
    let b = entry_lines(m, keys, n, p);
    if i == n {
        assert(b.take(a.len() as int) =~= a);
    } else {
        lemma_lines_prefix(m, keys, i, n - 1, p);
        let c = entry_lines(m, keys, n - 1, p);
        assert(b.take(a.len() as int) =~= c.take(a.len() as int));
    }
}

proof fn lemma_entries_from(
    m: Map<Seq<char>, ValueModel>,
    keys: Seq<Seq<char>>,
    i: int,
    p: Printer,
    fl: Unit,
)
    requires
        0 <= i <= keys.len(),
        forall|j: int| 0 <= j < keys.len() ==> one_field(#[trigger] keys[j]) && kept(m[keys[j]], p, fl),
    ensures
        entries_from(
            entry_lines(m, keys, keys.len() as int, p),
            entry_lines(m, keys, i, p).len() as int,
            fl,
        ) == survivors(m, keys, i),
    decreases keys.len() - i,
{
    let s = entry_lines(m, keys, keys.len() as int, p);
    let a = entry_lines(m, keys, i, p);
    if i < keys.len() {
        lemma_entries_from(m, keys, i + 1, p, fl);
        lemma_lines_prefix(m, keys, i + 1, keys.len() as int, p);
        let b = entry_lines(m, keys, i + 1, p);
        let k = keys[i];
        let l = entry_line(k, m[k], p);
        lemma_line_kept(k, m[k], p, fl);
        assert(b =~= a + l);
        let e = (b.len() - 1) as int;
        assert forall|x: int| a.len() <= x < b.len() implies #[trigger] s[x] == l[x - a.len()] by {
            assert(s.take(b.len() as int)[x] == s[x]);
            assert(b[x] == l[x - a.len()]);
        }
        assert(s[e] == '\n');
        let line = l.drop_last();
        assert forall|x: int| a.len() <= x < e implies #[trigger] s[x] != '\n' by {
            assert(line[x - a.len()] == s[x]);
        }
        lemma_find_is(s, a.len() as int, '\n', e);
        assert(s.subrange(a.len() as int, e) =~= line);
        if e > a.len() {
            assert(s[e - 1] == line.last());
        }
        assert(line_text(s, a.len() as int, e) == line);
    }
}

spec fn written(
    base: Map<Seq<char>, ValueModel>,
    m: Map<Seq<char>, ValueModel>,
    keys: Seq<Seq<char>>,
    i: int,
) -> Map<Seq<char>, ValueModel>
    decreases i,
{
    if i <= 0 {
        base
    } else if m[keys[i - 1]] is List {
        written(base, m, keys, i - 1)
    } else {
        written(base, m, keys, i - 1).insert(keys[i - 1], m[keys[i - 1]])
    }
}

proof fn lemma_overlaid(
    base: Map<Seq<char>, ValueModel>,
    m: Map<Seq<char>, ValueModel>,
    keys: Seq<Seq<char>>,
    i: int,
    es: Seq<(Seq<char>, ValueModel)>,
)
    requires
        0 <= i <= keys.len(),
        overlaid(base, es) == written(base, m, keys, i),
    ensures
        overlaid(base, es + survivors(m, keys, i)) == written(base, m, keys, keys.len() as int),
    decreases keys.len() - i,
{
    if i >= keys.len() {
        assert(es + survivors(m, keys, i) =~= es);
    } else {
        match read_back(keys[i], m[keys[i]]) {
            Some(e) => {
                crate::store::lemma_overlaid_push(base, es, e);
                lemma_overlaid(base, m, keys, i + 1, es.push(e));
                assert(es.push(e) + survivors(m, keys, i + 1) =~= es + survivors(m, keys, i));
            },
            None => {
                lemma_overlaid(base, m, keys, i + 1, es);
            },
        }
    }
}

proof fn lemma_written(
    base: Map<Seq<char>, ValueModel>,
    m: Map<Seq<char>, ValueModel>,
    keys: Seq<Seq<char>>,
    i: int,
    k: Seq<char>,
)
    requires
        0 <= i <= keys.len(),
    ensures
        ({
            let w = written(base, m, keys, i);
            if !(m[k] is List) && keys.take(i).contains(k) {
                w.dom().contains(k) && w[k] == m[k]
            } else {
                w.dom().contains(k) == base.dom().contains(k) && w[k] == base[k]
            }
        }),
    decreases i,
{
    if i > 0 {
        lemma_written(base, m, keys, i - 1, k);
        let t = keys.take(i);
        let u = keys.take(i - 1);
        if t.contains(k) && k != keys[i - 1] {
            let j = choose|j: int| 0 <= j < t.len() && t[j] == k;
            assert(u[j] == k);
        }
        if u.contains(k) {
            let j = choose|j: int| 0 <= j < u.len() && u[j] == k;
            assert(t[j] == k);
        }
        assert(t[i - 1] == keys[i - 1]);
    }
}

/// The entries of a map that are no lists.
pub open spec fn without_lists(m: Map<Seq<char>, ValueModel>) -> Map<Seq<char>, ValueModel> {
    m.restrict(Set::new(|k: Seq<char>| m.dom().contains(k) && !(m[k] is List)))
}

/// Restoring a snapshot writes back every entry that the snapshot was taken of, with its value,
/// except the lists, of which a snapshot holds only the length. What the store held under other
/// keys stays. Keys with a tab or a line feed in them, and the values that are not `kept`, are
/// those whose line reads as something else.
pub proof fn law_restore_reads_snapshot(
    m: Map<Seq<char>, ValueModel>,
    base: Map<Seq<char>, ValueModel>,
    p: Printer,
    fl: Unit,
)
    requires
        m.dom().finite(),
        forall|k: Seq<char>| #[trigger] m.dom().contains(k) ==> one_field(k) && kept(m[k], p, fl),
    ensures
        overlaid(base, entries(snapshot_of(m, p), fl)) == base.union_prefer_right(without_lists(m)),
{
    crate::diff_law::lemma_in_order_exists(m.dom());
    let keys = in_order(m.dom());
    let s = snapshot_of(m, p);
    assert forall|j: int| 0 <= j < keys.len() implies one_field(#[trigger] keys[j]) && kept(
        m[keys[j]],
        p,
        fl,
    ) by {
        assert(keys.to_set().contains(keys[j]));
    }
    lemma_entries_from(m, keys, 0, p, fl);
    assert(entries(s, fl) == survivors(m, keys, 0));
    let none = Seq::<(Seq<char>, ValueModel)>::empty();
    lemma_overlaid(base, m, keys, 0, none);
    assert(none + survivors(m, keys, 0) =~= survivors(m, keys, 0));
    let l = overlaid(base, entries(s, fl));
    let r = base.union_prefer_right(without_lists(m));
    assert(keys.take(keys.len() as int) =~= keys);
    assert forall|k: Seq<char>| #[trigger] l.dom().contains(k) == r.dom().contains(k) by {
        lemma_written(base, m, keys, keys.len() as int, k);
        assert(keys.to_set().contains(k) == m.dom().contains(k));
    }
    assert(l.dom() =~= r.dom());
    assert forall|k: Seq<char>| #[trigger] l.dom().contains(k) implies l[k] == r[k] by {
        lemma_written(base, m, keys, keys.len() as int, k);
        assert(keys.to_set().contains(k) == m.dom().contains(k));
    }
    assert(l =~= r);
}

proof fn lemma_all_survive(m: Map<Seq<char>, ValueModel>, keys: Seq<Seq<char>>, i: int)
    requires
        0 <= i <= keys.len(),
        forall|j: int| 0 <= j < keys.len() ==> !(m[#[trigger] keys[j]] is List),
    ensures
        survivors(m, keys, i).len() == keys.len() - i,
    decreases keys.len() - i,
{
    if i < keys.len() {
        assert(!(m[keys[i]] is List));
        lemma_all_survive(m, keys, i + 1);
    }
}

/// State goes from one store to another through a snapshot: restoring in `b` what `a` gave writes as
/// many entries as `a` holds, `b` then holds each of them with the same value, and what it held under
/// other keys stays. Lists do not go along, nor keys and values that are not one field.
pub proof fn law_snapshot_carries_state(a: Store, b: Store, p: Printer, fl: Unit)
    requires
        forall|k: Seq<char>| #[trigger]
            a@.dom().contains(k) ==> one_field(k) && kept(a@[k], p, fl) && !(a@[k] is List),
    ensures
        ({
            let es = entries(snapshot_of(a@, p), fl);
            let after = overlaid(b@, es);
            &&& es.len() == a@.len()
            &&& forall|k: Seq<char>| #[trigger] a@.dom().contains(k) ==> after.dom().contains(k) && after[k] == a@[k]
            &&& forall|k: Seq<char>| #[trigger]
                after.dom().contains(k) && !a@.dom().contains(k) ==> b@.dom().contains(k) && after[k] == b@[k]
            &&& forall|k: Seq<char>| #[trigger] b@.dom().contains(k) ==> after.dom().contains(k)
        }),
{
    let m = a@;
    let es = entries(snapshot_of(m, p), fl);
    lemma_store_finite(a);
    law_restore_reads_snapshot(m, b@, p, fl);
    crate::diff_law::lemma_in_order_exists(m.dom());
    let keys = in_order(m.dom());
    assert forall|j: int| 0 <= j < keys.len() implies one_field(#[trigger] keys[j]) && kept(m[keys[j]], p, fl)
        && !(m[keys[j]] is List) by {
        assert(keys.to_set().contains(keys[j]));
    }
    lemma_entries_from(m, keys, 0, p, fl);
    lemma_all_survive(m, keys, 0);
    lemma_increasing_distinct(keys);
    keys.unique_seq_to_set();
    assert(without_lists(m) =~= m);
}

/// Every number but those that are none is printed on one line and read back as itself.
pub open spec fn numbers_come_back(p: Printer, fl: Unit) -> bool {
    &&& forall|b: u64| !nan(b) ==> #[trigger] kept(ValueModel::Float(b), p, fl)
    &&& forall|b: u32| !nan32(b) ==> #[trigger] kept(ValueModel::Px(b), p, fl)
}

/// A value that a snapshot holds whole: no list, no number that is none, no text with a backslash or
/// a carriage return.
pub open spec fn plain(v: ValueModel) -> bool {
    match v {
        ValueModel::List(_) => false,
        ValueModel::Float(b) => !nan(b),
        ValueModel::Px(b) => !nan32(b),
        ValueModel::Text(s) => lacks(s, '\\') && lacks(s, '\r'),
        _ => true,
    }
}

/// A snapshot of plain values under keys of one field carries a store over whole: reading it into any
/// store gives as many entries as the first one holds, each with its value, and leaves the other keys
/// as they were.
pub proof fn law_plain_store_is_carried_over(a: Store, b: Store, p: Printer, fl: Unit)
    requires
        numbers_come_back(p, fl),
        forall|k: Seq<char>| #[trigger] a@.dom().contains(k) ==> one_field(k) && plain(a@[k]),
    ensures
        ({
            let es = entries(snapshot_of(a@, p), fl);
            let after = overlaid(b@, es);
            &&& es.len() == a@.len()
            &&& forall|k: Seq<char>| #[trigger] a@.dom().contains(k) ==> after.dom().contains(k) && after[k] == a@[k]
            &&& forall|k: Seq<char>| #[trigger]
                after.dom().contains(k) && !a@.dom().contains(k) ==> b@.dom().contains(k) && after[k] == b@[k]
            &&& forall|k: Seq<char>| #[trigger] b@.dom().contains(k) ==> after.dom().contains(k)
        }),
{
    assert forall|k: Seq<char>| #[trigger] a@.dom().contains(k) implies one_field(k) && kept(a@[k], p, fl) && !(a@[k] is List) by {
        match a@[k] {
            ValueModel::Text(s) => {
                if s.len() > 0 {
                    assert(s[s.len() - 1] != '\r');
                }
            },
            _ => {},
        }
    }
    law_snapshot_carries_state(a, b, p, fl);
}

} // verus!
