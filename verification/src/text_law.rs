//! What holds between integers and their decimal texts.
use vstd::prelude::*;

use crate::text::{
    all_digits, decimal, digit_char, digits_value, integer64, is_digit, signed_decimal, trim_end, trim_start, white,
};

verus! {

proof fn lemma_decimal(n: nat)
    ensures
        all_digits(decimal(n)),
        digits_value(decimal(n)) == n,
        decimal(n)[0] != '-' && decimal(n)[0] != '+',
    decreases n,
{
    reveal_with_fuel(digits_value, 2);
    if n < 10 {
        assert(is_digit(digit_char(n)));
        assert(decimal(n).drop_last() =~= Seq::empty());
    } else {
        lemma_decimal(n / 10);
        assert(is_digit(digit_char(n % 10)));
        assert(decimal(n).drop_last() =~= decimal(n / 10));
        assert forall|i: int| 0 <= i < decimal(n).len() implies is_digit(#[trigger] decimal(n)[i]) by {
            if i < decimal(n).len() - 1 {
                assert(decimal(n)[i] == decimal(n / 10)[i]);
            }
        }
    }
    assert(is_digit(decimal(n)[0]));
}

/// The decimal text of an integer is digits alone, without a zero in front of others, with a minus
/// in front where the integer is negative; it is read back as the integer. The last digit of a
/// natural number is what is left over when it is divided by ten.
pub proof fn law_integer_is_read_back(n: i64)
    ensures
        integer64(signed_decimal(n as int)) == Some(n),
        n >= 0 ==> all_digits(signed_decimal(n as int)),
        n >= 0 ==> signed_decimal(n as int).last() as int == 48 + n % 10,
        n >= 10 ==> signed_decimal(n as int).drop_last() == signed_decimal(n as int / 10),
        n < 0 ==> signed_decimal(n as int)[0] == '-',
{
    if n >= 0 {
        lemma_decimal(n as nat);
        assert(n >= 10 ==> decimal(n as nat).drop_last() =~= decimal((n as nat) / 10));
    } else {
        let d = decimal((-n) as nat);
        lemma_decimal((-n) as nat);
        assert(signed_decimal(n as int).skip(1) =~= d);
    }
}

/// The decimal text of a negative integer is a minus and the digits of what is left without it.
pub proof fn law_negative_is_minus_and_digits(n: i64)
    requires
        n < 0,
    ensures
        signed_decimal(n as int)[0] == '-',
        forall|i: int| 0 < i < signed_decimal(n as int).len() ==> is_digit(#[trigger] signed_decimal(n as int)[i]),
        signed_decimal(n as int).skip(1) == signed_decimal(-(n as int)),
{
    let d = decimal((-n) as nat);
    lemma_decimal((-n) as nat);
    let s = signed_decimal(n as int);
    assert(s.skip(1) =~= d);
    assert forall|i: int| 0 < i < s.len() implies is_digit(#[trigger] s[i]) by {
        assert(s[i] == d[i - 1]);
    }
}

proof fn lemma_start(s: Seq<char>) -> (n: int)
    ensures
        0 <= n <= s.len(),
        trim_start(s) == s.skip(n),
        forall|i: int| 0 <= i < n ==> white(#[trigger] s[i]),
        n < s.len() ==> !white(s[n]),
    decreases s.len(),
{
    if s.len() > 0 && white(s[0]) {
        let m = lemma_start(s.drop_first());
        assert(s.drop_first().skip(m) =~= s.skip(m + 1));
        assert forall|i: int| 0 <= i < m + 1 implies white(#[trigger] s[i]) by {
            if i > 0 {
                assert(white(s.drop_first()[i - 1]));
            }
        }
        m + 1
    } else {
        assert(s.skip(0) =~= s);
        0
    }
}

proof fn lemma_end(s: Seq<char>) -> (n: int)
    ensures
        0 <= n <= s.len(),
        trim_end(s) == s.take(n),
        forall|i: int| n <= i < s.len() ==> white(#[trigger] s[i]),
        n > 0 ==> !white(s[n - 1]),
    decreases s.len(),
{
    if s.len() > 0 && white(s.last()) {
        let m = lemma_end(s.drop_last());
        assert(s.drop_last().take(m) =~= s.take(m));
        assert forall|i: int| m <= i < s.len() implies white(#[trigger] s[i]) by {
            if i < s.len() - 1 {
                assert(white(s.drop_last()[i]));
            }
        }
        m
    } else {
        assert(s.take(s.len() as int) =~= s);
        s.len() as int
    }
}

/// Trimming takes white space off both ends and nothing else: what is left is a stretch of the text
/// that neither begins nor ends with it, and all around the stretch is white.
pub proof fn law_trimming_leaves_the_middle(s: Seq<char>) -> (r: (int, int))
    ensures
        0 <= r.0 <= r.1 <= s.len(),
        trim_end(trim_start(s)) == s.subrange(r.0, r.1),
        forall|i: int| 0 <= i < r.0 || r.1 <= i < s.len() ==> white(#[trigger] s[i]),
        r.0 < r.1 ==> !white(s[r.0]) && !white(s[r.1 - 1]),
{
    let a = lemma_start(s);
    let t = trim_start(s);
    let n = lemma_end(t);
    assert(t.take(n) =~= s.subrange(a, a + n));
    assert forall|i: int| 0 <= i < a || a + n <= i < s.len() implies white(#[trigger] s[i]) by {
        if i >= a {
            assert(white(t[i - a]));
        }
    }
    if n > 0 {
        assert(t[n - 1] == s[a + n - 1]);
        assert(t.len() > 0);
    }
    (a, a + n)
}

} // verus!
