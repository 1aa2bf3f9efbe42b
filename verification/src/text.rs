//! Text: character sequences, their order, and the few string operations the library needs.
use vstd::prelude::*;

verus! {

/// `String::push` appends one character at the end of the string.
pub assume_specification[ String::push ](s: &mut String, c: char)
    ensures
        final(s)@ == old(s)@.push(c),
;

/// The characters of a string, in order.
pub fn chars_of(s: &str) -> (r: Vec<char>)
    ensures
        r@ == s@,
{
    let mut out: Vec<char> = Vec::new();
    for c in it: s.chars()
        invariant
            out@ == it.seq().take(it.index() as int),
            it.seq() == s@,
    {
        out.push(c);
    }
    assert(out@ =~= s@);
    out
}

/// `true` exactly when both strings hold the same characters.
pub fn same(a: &str, b: &str) -> (r: bool)
    ensures
        r == (a@ == b@),
{
    let x = chars_of(a);
    let y = chars_of(b);
    if x.len() != y.len() {
        return false;
    }
    let mut i: usize = 0;
    while i < x.len()
        invariant
            i <= x.len(),
            x@ == a@,
            y@ == b@,
            x@.len() == y@.len(),
            forall|k: int| 0 <= k < i ==> x@[k] == y@[k],
        decreases x.len() - i,
    {
        if x[i] != y[i] {
            return false;
        }
        i += 1;
    }
    assert(x@ =~= y@);
    true
}

/// An owned copy of a string.
pub fn copy(s: &str) -> (r: String)
    ensures
        r@ == s@,
{
    s.to_owned()
}

/// The string that holds the given characters.
pub fn text_of(cs: &Vec<char>) -> (r: String)
    ensures
        r@ == cs@,
{
    let mut out = String::new();
    let mut i: usize = 0;
    while i < cs.len()
        invariant
            i <= cs.len(),
            out@ == cs@.take(i as int),
        decreases cs.len() - i,
    {
        out.push(cs[i]);
        i += 1;
        assert(out@ =~= cs@.take(i as int));
    }
    assert(cs@.take(i as int) =~= cs@);
    out
}

/// `a` followed by `b`.
pub fn join(a: &str, b: &str) -> (r: String)
    ensures
        r@ == a@ + b@,
{
    let mut out = a.to_owned();
    out.append(b);
    out
}

/// The decimal digits of `n`, most significant first, without leading zeros (`0` is one zero).
pub open spec fn decimal(n: nat) -> Seq<char>
    decreases n,
{
    if n < 10 {
        seq![digit_char(n)]
    } else {
        decimal(n / 10).push(digit_char(n % 10))
    }
}

/// The character of a decimal digit.
pub open spec fn digit_char(d: nat) -> char {
    (48 + d) as char
}

/// The signed decimal text of `i`.
pub open spec fn signed_decimal(i: int) -> Seq<char> {
    if i < 0 {
        seq!['-'] + decimal((-i) as nat)
    } else {
        decimal(i as nat)
    }
}

/// `n` written in decimal.
pub fn decimal_text(n: u64) -> (r: String)
    ensures
        r@ == decimal(n as nat),
    decreases n,
{
    let d: u8 = 48 + (n % 10) as u8;
    let c: char = d as char;
    assert(c == digit_char((n % 10) as nat));
    if n < 10 {
        let mut out = String::new();
        out.push(c);
        assert(out@ =~= seq![digit_char(n as nat)]);
        out
    } else {
        let mut out = decimal_text(n / 10);
        out.push(c);
        out
    }
}

/// `i` written in decimal, with a leading `-` when it is negative.
pub fn signed_decimal_text(i: i64) -> (r: String)
    ensures
        r@ == signed_decimal(i as int),
{
    if i >= 0 {
        decimal_text(i as u64)
    } else {
        let m: u64 = if i == i64::MIN {
            0x8000_0000_0000_0000
        } else {
            (-i) as u64
        };
        let mut out = String::new();
        out.push('-');
        assert(out@ =~= seq!['-']);
        let digits = decimal_text(m);
        out.append(digits.as_str());
        out
    }
}

/// The code point of a character.
pub fn code(c: char) -> (r: u32)
    ensures
        r as int == c as int,
{
    c as u32
}

/// `a` comes strictly before `b` in the lexicographic order by code point.
pub open spec fn before(a: Seq<char>, b: Seq<char>) -> bool
    decreases a.len(),
{
    if b.len() == 0 {
        false
    } else if a.len() == 0 {
        true
    } else if a[0] != b[0] {
        (a[0] as int) < (b[0] as int)
    } else {
        before(a.drop_first(), b.drop_first())
    }
}

/// The order is irreflexive.
pub proof fn lemma_before_irreflexive(a: Seq<char>)
    ensures
        !before(a, a),
    decreases a.len(),
{
    if a.len() > 0 {
        lemma_before_irreflexive(a.drop_first());
    }
}

/// The order is transitive.
pub proof fn lemma_before_transitive(a: Seq<char>, b: Seq<char>, c: Seq<char>)
    requires
        before(a, b),
        before(b, c),
    ensures
        before(a, c),
    decreases a.len(),
{
    if a.len() > 0 && a[0] == b[0] && b[0] == c[0] {
        lemma_before_transitive(a.drop_first(), b.drop_first(), c.drop_first());
    }
}

/// The order is total: of two different texts one comes first.
pub proof fn lemma_before_total(a: Seq<char>, b: Seq<char>)
    ensures
        a == b || before(a, b) || before(b, a),
    decreases a.len(),
{
    if a.len() > 0 && b.len() > 0 {
        if a[0] == b[0] {
            lemma_before_total(a.drop_first(), b.drop_first());
            if a.drop_first() == b.drop_first() {
                assert(a =~= seq![a[0]] + a.drop_first());
                assert(b =~= seq![b[0]] + b.drop_first());
            }
        }
    } else if a.len() == 0 && b.len() == 0 {
        assert(a =~= b);
    }
}

/// `true` exactly when `a` comes strictly before `b`.
pub fn is_before(a: &str, b: &str) -> (r: bool)
    ensures
        r == before(a@, b@),
{
    let x = chars_of(a);
    let y = chars_of(b);
    let mut i: usize = 0;
    assert(x@.skip(0) =~= x@);
    assert(y@.skip(0) =~= y@);
    while i < x.len() && i < y.len()
        invariant
            i <= x.len(),
            i <= y.len(),
            x@ == a@,
            y@ == b@,
            before(x@, y@) == before(x@.skip(i as int), y@.skip(i as int)),
        decreases x.len() - i,
    {
        let c: char = x[i];
        let d: char = y[i];
        if c != d {
            return code(c) < code(d);
        }
        assert(x@.skip(i as int).drop_first() =~= x@.skip(i + 1));
        assert(y@.skip(i as int).drop_first() =~= y@.skip(i + 1));
        i += 1;
    }
    i < y.len()
}

/// Strictly increasing in the order of `before`.
pub open spec fn increasing(s: Seq<Seq<char>>) -> bool {
    forall|i: int, j: int| 0 <= i < j < s.len() ==> before(#[trigger] s[i], #[trigger] s[j])
}

/// The members of a finite set of texts in increasing order.
pub open spec fn in_order(keys: Set<Seq<char>>) -> Seq<Seq<char>> {
    choose|s: Seq<Seq<char>>| increasing(s) && #[trigger] s.to_set() == keys
}

/// Increasing sequences with the same members are equal.
pub proof fn lemma_increasing_unique(a: Seq<Seq<char>>, b: Seq<Seq<char>>)
    requires
        increasing(a),
        increasing(b),
        a.to_set() == b.to_set(),
    ensures
        a == b,
    decreases a.len(),
{
    if a.len() == 0 {
        if b.len() > 0 {
            assert(b.to_set().contains(b[0]));
            assert(a.to_set().contains(b[0]));
        }
        assert(a =~= b);
    } else {
        assert(a.to_set().contains(a.last()));
        assert(b.to_set().contains(a.last()));
        let j = choose|j: int| 0 <= j < b.len() && b[j] == a.last();
        assert(b.to_set().contains(b.last()));
        assert(a.to_set().contains(b.last()));
        let i = choose|i: int| 0 <= i < a.len() && a[i] == b.last();
        if j < b.len() - 1 {
            if i < a.len() - 1 {
                lemma_before_transitive(a.last(), b.last(), a.last());
            }
            lemma_before_irreflexive(a.last());
        }
        assert(a.last() == b.last());
        let a1 = a.drop_last();
        let b1 = b.drop_last();
        assert forall|x: Seq<char>| a1.to_set().contains(x) <==> b1.to_set().contains(x) by {
            lemma_before_irreflexive(a.last());
            if a1.to_set().contains(x) {
                let k = choose|k: int| 0 <= k < a1.len() && a1[k] == x;
                assert(a[k] == x);
                assert(a.to_set().contains(x));
                assert(b.to_set().contains(x));
                let m = choose|m: int| 0 <= m < b.len() && b[m] == x;
                assert(b1[m] == x);
            }
            if b1.to_set().contains(x) {
                let k = choose|k: int| 0 <= k < b1.len() && b1[k] == x;
                assert(b[k] == x);
                assert(b.to_set().contains(x));
                assert(a.to_set().contains(x));
                let m = choose|m: int| 0 <= m < a.len() && a[m] == x;
                assert(a1[m] == x);
            }
        }
        assert(a1.to_set() =~= b1.to_set());
        lemma_increasing_unique(a1, b1);
        assert(a =~= a1.push(a.last()));
        assert(b =~= b1.push(b.last()));
    }
}

/// An increasing sequence is its own members in order.
pub proof fn lemma_in_order(s: Seq<Seq<char>>)
    requires
        increasing(s),
    ensures
        in_order(s.to_set()) == s,
{
    let t = in_order(s.to_set());
    assert(increasing(t) && t.to_set() == s.to_set());
    lemma_increasing_unique(t, s);
}

/// An increasing sequence with one more member.
spec fn with_member(s: Seq<Seq<char>>, k: Seq<char>) -> Seq<Seq<char>>
    decreases s.len(),
{
    if s.len() == 0 || before(s.last(), k) {
        s.push(k)
    } else {
        with_member(s.drop_last(), k).push(s.last())
    }
}

proof fn lemma_with_member(s: Seq<Seq<char>>, k: Seq<char>)
    requires
        increasing(s),
        !s.contains(k),
    ensures
        increasing(with_member(s, k)),
        forall|x: Seq<char>| #[trigger] with_member(s, k).contains(x) <==> s.contains(x) || x == k,
    decreases s.len(),
{
    let r = with_member(s, k);
    if s.len() == 0 || before(s.last(), k) {
        assert forall|i: int, j: int| 0 <= i < j < r.len() implies before(#[trigger] r[i], #[trigger] r[j]) by {
            if j == s.len() && i < s.len() - 1 {
                lemma_before_transitive(s[i], s.last(), k);
            }
        }
        assert forall|x: Seq<char>| #[trigger] r.contains(x) <==> s.contains(x) || x == k by {
            if s.contains(x) {
                let i = choose|i: int| 0 <= i < s.len() && s[i] == x;
                assert(r[i] == x);
            }
            if x == k {
                assert(r[s.len() as int] == k);
            }
            if r.contains(x) {
                let i = choose|i: int| 0 <= i < r.len() && r[i] == x;
                if i < s.len() {
                    assert(s[i] == x);
                }
            }
        }
    } else {
        let t = s.drop_last();
        let m = with_member(t, k);
        if t.contains(k) {
            let i = choose|i: int| 0 <= i < t.len() && t[i] == k;
            assert(s[i] == k);
        }
        lemma_with_member(t, k);
        assert(s[s.len() - 1] == s.last());
        lemma_before_total(k, s.last());
        assert(before(k, s.last()));
        assert forall|i: int, j: int| 0 <= i < j < r.len() implies before(#[trigger] r[i], #[trigger] r[j]) by {
            if j == m.len() {
                assert(m.contains(m[i]));
                if m[i] != k {
                    assert(t.contains(m[i]));
                    let h = choose|h: int| 0 <= h < t.len() && t[h] == m[i];
                    assert(before(s[h], s[s.len() - 1]));
                }
            }
        }
        assert forall|x: Seq<char>| #[trigger] r.contains(x) <==> s.contains(x) || x == k by {
            if r.contains(x) {
                let i = choose|i: int| 0 <= i < r.len() && r[i] == x;
                if i < m.len() {
                    assert(m.contains(x));
                    if x != k {
                        assert(t.contains(x));
                        let h = choose|h: int| 0 <= h < t.len() && t[h] == x;
                        assert(s[h] == x);
                    }
                }
            }
            if s.contains(x) {
                let i = choose|i: int| 0 <= i < s.len() && s[i] == x;
                if i < t.len() {
                    assert(t[i] == x);
                    assert(m.contains(x));
                    let h = choose|h: int| 0 <= h < m.len() && m[h] == x;
                    assert(r[h] == x);
                } else {
                    assert(r[m.len() as int] == x);
                }
            }
            if x == k {
                assert(m.contains(k));
                let h = choose|h: int| 0 <= h < m.len() && m[h] == k;
                assert(r[h] == k);
            }
        }
    }
}

/// Every finite set of texts has its members in order.
pub proof fn lemma_finite_in_order(keys: Set<Seq<char>>)
    requires
        keys.finite(),
    ensures
        increasing(in_order(keys)),
        in_order(keys).to_set() == keys,
    decreases keys.len(),
{
    if keys.len() == 0 {
        let none = Seq::<Seq<char>>::empty();
        assert(none.to_set() =~= keys);
        assert(increasing(none) && none.to_set() == keys);
    } else {
        let k = keys.choose();
        let rest = keys.remove(k);
        lemma_finite_in_order(rest);
        let s = in_order(rest);
        if s.contains(k) {
            assert(s.to_set().contains(k));
        }
        lemma_with_member(s, k);
        let r = with_member(s, k);
        assert forall|x: Seq<char>| #[trigger] r.to_set().contains(x) == keys.contains(x) by {
            assert(r.contains(x) <==> s.contains(x) || x == k);
            assert(s.to_set().contains(x) == rest.contains(x));
        }
        assert(r.to_set() =~= keys);
        assert(increasing(r) && r.to_set() == keys);
    }
}

/// The character is a decimal digit.
pub open spec fn is_digit(c: char) -> bool {
    48 <= c as int <= 57
}

/// The number that a row of decimal digits stands for.
pub open spec fn digits_value(s: Seq<char>) -> int
    decreases s.len(),
{
    if s.len() == 0 {
        0
    } else {
        digits_value(s.drop_last()) * 10 + (s.last() as int - 48)
    }
}

/// Nothing but digits, and at least one.
pub open spec fn all_digits(s: Seq<char>) -> bool {
    s.len() > 0 && forall|i: int| 0 <= i < s.len() ==> is_digit(#[trigger] s[i])
}

/// The integer that a text denotes: digits after an optional sign.
pub open spec fn integer(s: Seq<char>) -> Option<int> {
    if s.len() > 0 && s[0] == '-' && all_digits(s.skip(1)) {
        Some(-digits_value(s.skip(1)))
    } else if s.len() > 0 && s[0] == '+' && all_digits(s.skip(1)) {
        Some(digits_value(s.skip(1)))
    } else if all_digits(s) {
        Some(digits_value(s))
    } else {
        None
    }
}

/// The integer that a text denotes, where it fits 64 bits.
pub open spec fn integer64(s: Seq<char>) -> Option<i64> {
    match integer(s) {
        Some(v) => if i64::MIN <= v <= i64::MAX {
            Some(v as i64)
        } else {
            None
        },
        None => None,
    }
}

proof fn lemma_digits_grow(s: Seq<char>, i: int)
    requires
        0 <= i <= s.len(),
        forall|k: int| 0 <= k < s.len() ==> is_digit(#[trigger] s[k]),
    ensures
        0 <= digits_value(s.take(i)) <= digits_value(s),
    decreases s.len(),
{
    if s.len() == 0 {
        assert(s.take(i) =~= s);
    } else {
        let d = s.drop_last();
        assert forall|k: int| 0 <= k < d.len() implies is_digit(#[trigger] d[k]) by {
            assert(d[k] == s[k]);
        }
        assert(s.last() == s[s.len() - 1]);
        if i < s.len() {
            lemma_digits_grow(d, i);
            assert(d.take(i) =~= s.take(i));
        } else {
            lemma_digits_grow(d, d.len() as int);
            assert(d.take(d.len() as int) =~= d);
            assert(s.take(i) =~= s);
        }
    }
}

/// The number that the digits from `from` on stand for, capped at 2 to the 63rd plus one.
fn digits_from(cs: &Vec<char>, from: usize) -> (r: Option<u64>)
    requires
        from <= cs@.len(),
    ensures
        r is Some <==> all_digits(cs@.skip(from as int)),
        r matches Some(v) ==> {
            let exact = digits_value(cs@.skip(from as int));
            &&& 0 <= exact
            &&& if exact <= 0x8000_0000_0000_0000 {
                v == exact
            } else {
                v == 0x8000_0000_0000_0001
            }
        },
{
    let ghost s = cs@.skip(from as int);
    if from == cs.len() {
        return None;
    }
    let mut i: usize = from;
    while i < cs.len()
        invariant
            s == cs@.skip(from as int),
            from <= i <= cs@.len(),
            forall|k: int| 0 <= k < i - from ==> is_digit(#[trigger] s[k]),
        decreases cs.len() - i,
    {
        let x: u32 = code(cs[i]);
        assert(s[i - from] == cs@[i as int]);
        if x < 48 || x > 57 {
            assert(!is_digit(s[i - from]));
            return None;
        }
        i += 1;
    }
    let mut v: u64 = 0;
    let mut j: usize = from;
    assert(s.take(0) =~= Seq::<char>::empty());
    while j < cs.len()
        invariant
            s == cs@.skip(from as int),
            from <= j <= cs@.len(),
            forall|k: int| 0 <= k < s.len() ==> is_digit(#[trigger] s[k]),
            s.len() == cs@.len() - from,
            v <= 0x8000_0000_0000_0000,
            v == digits_value(s.take(j - from)),
        decreases cs.len() - j,
    {
        assert(s[j - from] == cs@[j as int]);
        let x: u32 = code(cs[j]);
        let d: u64 = (x - 48) as u64;
        assert(s.take(j - from + 1).drop_last() =~= s.take(j - from));
        let wide: u128 = (v as u128) * 10 + (d as u128);
        assert(wide == digits_value(s.take(j - from + 1)));
        if wide > 0x8000_0000_0000_0000u128 {
            proof {
                lemma_digits_grow(s, j - from + 1);
            }
            return Some(0x8000_0000_0000_0001);
        }
        v = wide as u64;
        j += 1;
    }
    assert(s.take(s.len() as int) =~= s);
    proof {
        lemma_digits_grow(s, s.len() as int);
    }
    Some(v)
}

/// The integer that a text denotes, where it fits 64 bits.
pub fn parse_i64(s: &str) -> (r: Option<i64>)
    ensures
        r == integer64(s@),
{
    let cs = chars_of(s);
    if cs.len() == 0 {
        return None;
    }
    let first: char = cs[0];
    assert(cs@.skip(0) =~= cs@);
    if first == '-' {
        match digits_from(&cs, 1) {
            Some(v) => {
                if v == 0x8000_0000_0000_0000 {
                    Some(i64::MIN)
                } else if v > 0x8000_0000_0000_0000 {
                    None
                } else {
                    Some(-(v as i64))
                }
            },
            None => {
                assert(!all_digits(cs@)) by {
                    assert(!is_digit(cs@[0]));
                }
                None
            },
        }
    } else if first == '+' {
        match digits_from(&cs, 1) {
            Some(v) => {
                if v >= 0x8000_0000_0000_0000 {
                    None
                } else {
                    Some(v as i64)
                }
            },
            None => {
                assert(!all_digits(cs@)) by {
                    assert(!is_digit(cs@[0]));
                }
                None
            },
        }
    } else {
        match digits_from(&cs, 0) {
            Some(v) => {
                if v >= 0x8000_0000_0000_0000 {
                    None
                } else {
                    Some(v as i64)
                }
            },
            None => None,
        }
    }
}

/// What `char::is_alphabetic` answers.
pub uninterp spec fn alphabetic(c: char) -> bool;

/// What `char::is_numeric` answers.
pub uninterp spec fn numeric(c: char) -> bool;

/// The character has the Unicode property `White_Space`.
pub open spec fn white(c: char) -> bool {
    let x = c as u32;
    ||| 0x09 <= x <= 0x0D
    ||| x == 0x20
    ||| x == 0x85
    ||| x == 0xA0
    ||| x == 0x1680
    ||| 0x2000 <= x <= 0x200A
    ||| x == 0x2028
    ||| x == 0x2029
    ||| x == 0x202F
    ||| x == 0x205F
    ||| x == 0x3000
}

/// The character is a Latin letter without a mark.
pub open spec fn ascii_letter(c: char) -> bool {
    ('a' <= c && c <= 'z') || ('A' <= c && c <= 'Z')
}

/// `char::is_alphabetic`: the Unicode property `Alphabetic`, which depends on the character alone.
/// Of the characters below 128 it holds of the letters alone.
pub assume_specification[ char::is_alphabetic ](c: char) -> (r: bool)
    ensures
        r == alphabetic(c),
        (c as u32) < 128 ==> r == ascii_letter(c),
;

/// `char::is_numeric`: the Unicode categories of numbers, which depend on the character alone. Of
/// the characters below 128 the ten digits alone are in them.
pub assume_specification[ char::is_numeric ](c: char) -> (r: bool)
    ensures
        r == numeric(c),
        (c as u32) < 128 ==> r == ('0' <= c && c <= '9'),
;

/// `char::is_whitespace`: the Unicode property `White_Space`.
pub assume_specification[ char::is_whitespace ](c: char) -> (r: bool)
    ensures
        r == white(c),
;

/// The text without white space at its start.
pub open spec fn trim_start(s: Seq<char>) -> Seq<char>
    decreases s.len(),
{
    if s.len() > 0 && white(s[0]) {
        trim_start(s.drop_first())
    } else {
        s
    }
}

/// The text without white space at its end.
pub open spec fn trim_end(s: Seq<char>) -> Seq<char>
    decreases s.len(),
{
    if s.len() > 0 && white(s.last()) {
        trim_end(s.drop_last())
    } else {
        s
    }
}

/// The text without white space at its start and end.
pub fn trim(s: &str) -> (r: String)
    ensures
        r@ == trim_end(trim_start(s@)),
{
    let cs = chars_of(s);
    let mut a: usize = 0;
    assert(cs@.skip(0) =~= cs@);
    while a < cs.len() && cs[a].is_whitespace()
        invariant
            cs@ == s@,
            a <= cs@.len(),
            trim_start(cs@.skip(a as int)) == trim_start(s@),
        decreases cs.len() - a,
    {
        assert(cs@.skip(a as int).drop_first() =~= cs@.skip(a + 1));
        a += 1;
    }
    let ghost rest = cs@.skip(a as int);
    let mut b: usize = cs.len();
    assert(rest.take(rest.len() as int) =~= rest);
    while b > a && cs[b - 1].is_whitespace()
        invariant
            rest == cs@.skip(a as int),
            a <= b <= cs@.len(),
            trim_end(rest.take(b - a)) == trim_end(rest),
        decreases b,
    {
        assert(rest.take(b - a).last() == cs@[b - 1]);
        assert(rest.take(b - a).drop_last() =~= rest.take(b - a - 1));
        b -= 1;
    }
    let mut out = String::new();
    let mut i: usize = a;
    assert(rest.take(0) =~= Seq::<char>::empty());
    while i < b
        invariant
            rest == cs@.skip(a as int),
            a <= i <= b <= cs@.len(),
            out@ == rest.take(i - a),
        decreases b - i,
    {
        out.push(cs[i]);
        i += 1;
        assert(out@ =~= rest.take(i - a));
    }
    out
}

} // verus!
