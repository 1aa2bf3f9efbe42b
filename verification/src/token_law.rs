//! How numbers, lengths and colours are read in the markup.
use vstd::prelude::*;

use crate::dsl_token::{digits_end, hex_run, lexed, number_end, TokenModel};
use crate::markup_law::reads;
use crate::scan::is_hex;
use crate::text::is_digit;

verus! {

/// All characters of a stretch are digits.
pub open spec fn digits_in(s: Seq<char>, i: int, e: int) -> bool {
    forall|k: int| i <= k < e ==> is_digit(#[trigger] s[k])
}

proof fn lemma_digits(s: Seq<char>, i: int, e: int)
    requires
        0 <= i <= e <= s.len(),
        digits_in(s, i, e),
        e == s.len() || !is_digit(s[e]),
    ensures
        digits_end(s, i) == e,
    decreases e - i,
{
    if i < e {
        assert(is_digit(s[i]));
        lemma_digits(s, i + 1, e);
    }
}

/// Digits, with a dot and digits behind them or without, are one number, and with `px` behind all of
/// it one length.
pub proof fn law_number_is_one_token(s: Seq<char>, i: int, m: int, e: int)
    requires
        0 <= i < m <= e <= s.len(),
        digits_in(s, i, m),
        m == s.len() || !is_digit(s[m]),
        e == m ==> !(m + 1 < s.len() && s[m] == '.' && is_digit(s[m + 1])),
        e > m ==> m + 1 < e && s[m] == '.' && digits_in(s, m + 1, e) && (e == s.len() || !is_digit(s[e])),
    ensures
        e + 1 < s.len() && s[e] == 'p' && s[e + 1] == 'x' ==> reads(
            s,
            i,
            TokenModel::Length(s.subrange(i, e + 2)),
            e + 2,
        ),
        !(e + 1 < s.len() && s[e] == 'p' && s[e + 1] == 'x') ==> reads(
            s,
            i,
            TokenModel::Number(s.subrange(i, e)),
            e,
        ),
{
    assert(is_digit(s[i]));
    lemma_digits(s, i, m);
    if e > m {
        assert(is_digit(s[m + 1]));
        lemma_digits(s, m + 1, e);
    }
    assert(number_end(s, i) == e);
}

/// All characters of a stretch are hexadecimal digits.
pub open spec fn hex_in(s: Seq<char>, i: int, e: int) -> bool {
    e <= s.len() && forall|k: int| i <= k < e ==> is_hex(#[trigger] s[k])
}

proof fn lemma_hex(s: Seq<char>, i: int, n: nat, k: nat)
    requires
        0 <= i,
        k <= n,
    ensures
        hex_run(s, i, n) >= k <==> hex_in(s, i, i + k) || k == 0,
        hex_run(s, i, n) <= n,
    decreases n,
{
    if n > 0 && i < s.len() && is_hex(s[i]) {
        if k > 0 {
            lemma_hex(s, i + 1, (n - 1) as nat, (k - 1) as nat);
            assert(hex_in(s, i, i + k) <==> hex_in(s, i + 1, i + k) || k == 1);
        } else {
            lemma_hex(s, i + 1, (n - 1) as nat, 0);
        }
    } else if k > 0 && hex_in(s, i, i + k) {
        assert(is_hex(s[i]));
    }
}

/// A `#` with eight hexadecimal digits behind it is a colour of them, one with six is a colour of
/// those, and one with fewer is no token.
pub proof fn law_hash_begins_a_color(s: Seq<char>, i: int)
    requires
        0 <= i < s.len(),
        s[i] == '#',
    ensures
        hex_in(s, i + 1, i + 9) ==> reads(s, i, TokenModel::Color(s.subrange(i, i + 9)), i + 9),
        hex_in(s, i + 1, i + 7) && !hex_in(s, i + 1, i + 9) ==> reads(
            s,
            i,
            TokenModel::Color(s.subrange(i, i + 7)),
            i + 7,
        ),
        !hex_in(s, i + 1, i + 7) ==> lexed(s, i) == Err::<Seq<TokenModel>, int>(i),
{
    lemma_hex(s, i + 1, 8, 8);
    lemma_hex(s, i + 1, 8, 6);
    assert(hex_in(s, i + 1, i + 9) ==> hex_in(s, i + 1, i + 7));
}

} // verus!
