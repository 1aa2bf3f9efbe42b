//! What binding expressions come to, and which expression a text stands for.
use vstd::prelude::*;

use crate::expr::{
    as_double, chain, chained, combined, evaluated, integer_op, level_op, lexed, name_end, names_on, negated,
    number_end, one_name, parsed, primary, quote_end, quotient, sign, truthy, BinOp, ExprModel, Lexeme, Outcome, UnOp,
};
use crate::float::{eq64, lt64, FloatQuery, Unit};
use crate::text::{is_digit, signed_decimal};
use crate::text_law::law_integer_is_read_back;
use crate::value::ValueModel;

verus! {

/// Two expressions joined by an operator.
pub open spec fn joined(op: BinOp, l: ExprModel, r: ExprModel) -> ExprModel {
    ExprModel::Bin(op, Box::new(l), Box::new(r))
}

/// An expression behind an operator.
pub open spec fn behind(op: UnOp, x: ExprModel) -> ExprModel {
    ExprModel::Un(op, Box::new(x))
}

/// The integer `n` as an outcome.
pub open spec fn int_of(o: Outcome, n: int) -> bool {
    o matches Outcome::Is(ValueModel::Int(i)) && i == n
}

/// The expression that is an integer.
pub open spec fn lit(n: i64) -> ExprModel {
    ExprModel::Literal(ValueModel::Int(n))
}

/// Subtraction undoes addition: what a difference comes to gives back the minuend when the
/// subtrahend is added to it, and a sum gives back either of its operands when the other is taken
/// away. Neither comes to anything but an integer, or to an overflow where no such integer fits.
pub proof fn law_subtraction_undoes_addition(
    l: ExprModel,
    r: ExprModel,
    state: Map<Seq<char>, ValueModel>,
    fl: Unit,
    a: i64,
    b: i64,
)
    requires
        int_of(evaluated(l, state, fl), a as int),
        int_of(evaluated(r, state, fl), b as int),
    ensures
        match evaluated(joined(BinOp::Sub, l, r), state, fl) {
            Outcome::Is(v) => v matches ValueModel::Int(d) && d + b == a,
            Outcome::Overflow => forall|d: i64| #[trigger] (d + b) != a,
            Outcome::Nothing => false,
        },
        evaluated(joined(BinOp::Sub, l, r), state, fl) is Is ==> int_of(
            evaluated(joined(BinOp::Add, joined(BinOp::Sub, l, r), r), state, fl),
            a as int,
        ),
        match evaluated(joined(BinOp::Add, l, r), state, fl) {
            Outcome::Is(v) => v matches ValueModel::Int(s) && s - b == a && s - a == b,
            Outcome::Overflow => forall|s: i64| #[trigger] (s - b) != a,
            Outcome::Nothing => false,
        },
        evaluated(joined(BinOp::Add, l, r), state, fl) is Is ==> {
            &&& int_of(evaluated(joined(BinOp::Sub, joined(BinOp::Add, l, r), r), state, fl), a as int)
            &&& int_of(evaluated(joined(BinOp::Sub, joined(BinOp::Add, l, r), l), state, fl), b as int)
        },
        evaluated(joined(BinOp::Add, l, r), state, fl) == evaluated(joined(BinOp::Add, r, l), state, fl),
{
    reveal_with_fuel(evaluated, 4);
}

/// A negation is what brings its operand to zero, and a negation of it is the operand again.
pub proof fn law_negation_brings_to_zero(x: ExprModel, state: Map<Seq<char>, ValueModel>, fl: Unit, a: i64)
    requires
        int_of(evaluated(x, state, fl), a as int),
    ensures
        a != i64::MIN ==> {
            &&& int_of(evaluated(joined(BinOp::Add, x, behind(UnOp::Neg, x)), state, fl), 0)
            &&& int_of(evaluated(behind(UnOp::Neg, behind(UnOp::Neg, x)), state, fl), a as int)
        },
        a == i64::MIN ==> evaluated(behind(UnOp::Neg, x), state, fl) is Overflow,
{
    reveal_with_fuel(evaluated, 4);
}

/// A product is a sum of equal terms: no terms make zero, and one more adds the term once more. A
/// product comes to nothing but an integer, or to an overflow.
pub proof fn law_multiplication_repeats_addition(
    l: ExprModel,
    r: ExprModel,
    state: Map<Seq<char>, ValueModel>,
    fl: Unit,
    a: i64,
    b: i64,
)
    requires
        int_of(evaluated(l, state, fl), a as int),
        int_of(evaluated(r, state, fl), b as int),
    ensures
        int_of(evaluated(joined(BinOp::Mul, l, lit(0)), state, fl), 0),
        int_of(evaluated(joined(BinOp::Mul, lit(0), r), state, fl), 0),
        ({
            let more = joined(BinOp::Add, r, lit(1));
            let product = evaluated(joined(BinOp::Mul, l, r), state, fl);
            let grown = evaluated(joined(BinOp::Mul, l, more), state, fl);
            product is Is && evaluated(more, state, fl) is Is && grown is Is ==> grown == evaluated(
                joined(BinOp::Add, joined(BinOp::Mul, l, r), l),
                state,
                fl,
            )
        }),
        !(evaluated(joined(BinOp::Mul, l, r), state, fl) is Nothing),
        evaluated(joined(BinOp::Mul, l, r), state, fl) == evaluated(joined(BinOp::Mul, r, l), state, fl),
        b != 0 && int_of(evaluated(joined(BinOp::Mul, l, r), state, fl), 0) ==> a == 0,
        evaluated(joined(BinOp::Mul, l, r), state, fl) is Overflow ==> !(i64::MIN <= a * b <= i64::MAX),
{
    reveal_with_fuel(evaluated, 4);
    assert(a * 0 == 0 && 0 * b == 0 && a * b == b * a && a * (b + 1) == a * b + a) by (nonlinear_arith);
    if b != 0 && a * b == 0 {
        assert(a == 0) by (nonlinear_arith)
            requires
                b != 0,
                a * b == 0,
        ;
    }
}

proof fn lemma_quotient(a: int, b: int)
    requires
        b != 0,
    ensures
        ({
            let rest = a - b * quotient(a, b);
            let size = if b < 0 {
                -b
            } else {
                b
            };
            &&& -size < rest < size
            &&& a >= 0 ==> rest >= 0
            &&& a <= 0 ==> rest <= 0
        }),
{
    let m = if a < 0 {
        -a
    } else {
        a
    };
    let n = if b < 0 {
        -b
    } else {
        b
    };
    let q = m / n;
    vstd::arithmetic::div_mod::lemma_fundamental_div_mod(m, n);
    assert(n * q + m % n == m && 0 <= m % n < n);
    assert(b * q == if b < 0 {
        -(n * q)
    } else {
        n * q
    }) by (nonlinear_arith)
        requires
            n == (if b < 0 {
                -b
            } else {
                b
            }),
    ;
    assert(b * (-q) == -(b * q)) by (nonlinear_arith);
}

proof fn lemma_quotient_small(a: int, b: int)
    requires
        b != 0,
        i64::MIN <= a <= i64::MAX,
        !(a == i64::MIN && b == -1),
    ensures
        i64::MIN <= quotient(a, b) <= i64::MAX,
{
    let m = if a < 0 {
        -a
    } else {
        a
    };
    let n = if b < 0 {
        -b
    } else {
        b
    };
    vstd::arithmetic::div_mod::lemma_div_pos_is_pos(m, n);
    vstd::arithmetic::div_mod::lemma_div_is_ordered_by_denominator(m, 1, n);
    if n >= 2 {
        vstd::arithmetic::div_mod::lemma_div_is_ordered_by_denominator(m, 2, n);
    } else {
        assert(m / 1 == m);
    }
}

/// The integer lies between zero and the dividend's nearest multiple of the divisor: what is left
/// over is less than the divisor and on the side of the dividend.
pub open spec fn rounds_to_zero(a: i64, b: i64, q: i64) -> bool {
    let rest = a - b * q;
    &&& if b < 0 {
        b < rest < -b
    } else {
        -b < rest < b
    }
    &&& a >= 0 ==> rest >= 0
    &&& a <= 0 ==> rest <= 0
}

proof fn lemma_divided(a: i64, b: i64)
    ensures
        match integer_op(BinOp::Div, a, b) {
            Outcome::Nothing => b == 0,
            Outcome::Overflow => a == i64::MIN && b == -1,
            Outcome::Is(v) => v matches ValueModel::Int(q) && b != 0 && rounds_to_zero(a, b, q),
        },
{
    if b != 0 {
        lemma_quotient(a as int, b as int);
        if !(a == i64::MIN && b == -1) {
            lemma_quotient_small(a as int, b as int);
        }
    }
}

/// A quotient of integers is rounded towards zero: the quotient times the divisor differs from the
/// dividend by less than the divisor, on the side of zero. A division by zero comes to nothing, and
/// no other does.
pub proof fn law_division_leaves_a_remainder(
    l: ExprModel,
    r: ExprModel,
    state: Map<Seq<char>, ValueModel>,
    fl: Unit,
    a: i64,
    b: i64,
)
    requires
        int_of(evaluated(l, state, fl), a as int),
        int_of(evaluated(r, state, fl), b as int),
    ensures
        match evaluated(joined(BinOp::Div, l, r), state, fl) {
            Outcome::Nothing => b == 0,
            Outcome::Overflow => a == i64::MIN && b == -1,
            Outcome::Is(v) => v matches ValueModel::Int(q) && b != 0 && rounds_to_zero(a, b, q),
        },
{
    lemma_divided(a, b);
    assert(evaluated(joined(BinOp::Div, l, r), state, fl) == integer_op(BinOp::Div, a, b));
}

/// The double that a unit answers a request with, zero where it has no answer.
pub open spec fn answer(fl: Unit, q: FloatQuery) -> u64 {
    match fl(q) {
        Some(b) => b,
        None => 0,
    }
}

/// The value is the number whose double is `d`.
pub open spec fn number_as(fl: Unit, v: ValueModel, d: u64) -> bool {
    match v {
        ValueModel::Int(n) => d == answer(fl, FloatQuery::FromInt { value: n }),
        ValueModel::Float(f) => d == f,
        ValueModel::Px(p) => d == answer(fl, FloatQuery::Widen { single: p }),
        _ => false,
    }
}

/// The bits are those of a number.
pub open spec fn numeric(d: u64) -> bool {
    d <= 0x7FF0_0000_0000_0000 || 0x8000_0000_0000_0000 <= d <= 0xFFF0_0000_0000_0000
}

/// The number of the first bits lies below that of the second: bits without the sign bit order as
/// they are, bits with it the other way round, and a sign makes less but for the two zeros.
pub open spec fn below(x: u64, y: u64) -> bool {
    if x < 0x8000_0000_0000_0000 && y < 0x8000_0000_0000_0000 {
        x < y
    } else if x >= 0x8000_0000_0000_0000 && y >= 0x8000_0000_0000_0000 {
        x > y
    } else {
        x >= 0x8000_0000_0000_0000 && !(x == 0x8000_0000_0000_0000 && y == 0)
    }
}

proof fn lemma_below(x: u64, y: u64)
    ensures
        lt64(x, y) == (numeric(x) && numeric(y) && below(x, y)),
        eq64(x, y) == (numeric(x) && numeric(y) && !below(x, y) && !below(y, x)),
{
}

/// The truth `b` as an outcome.
pub open spec fn truth(o: Outcome, b: bool) -> bool {
    o == Outcome::Is(ValueModel::Bool(b))
}

/// Numbers of any kind compare by their values: exactly one of less, equal and greater holds of
/// two numbers, and none where one operand is not a number. Less holds as the bits say, and
/// greater is less the other way round.
pub proof fn law_numbers_compare_by_value(
    l: ExprModel,
    r: ExprModel,
    state: Map<Seq<char>, ValueModel>,
    fl: Unit,
    x: u64,
    y: u64,
)
    requires
        evaluated(l, state, fl) matches Outcome::Is(v) && number_as(fl, v, x),
        evaluated(r, state, fl) matches Outcome::Is(v) && number_as(fl, v, y),
    ensures
        truth(
            evaluated(joined(BinOp::Lt, l, r), state, fl),
            numeric(x) && numeric(y) && below(x, y),
        ),
        truth(
            evaluated(joined(BinOp::Gt, l, r), state, fl),
            numeric(x) && numeric(y) && below(y, x),
        ),
        truth(
            evaluated(joined(BinOp::Eq, l, r), state, fl),
            numeric(x) && numeric(y) && !below(x, y) && !below(y, x),
        ),
{
    lemma_below(x, y);
    lemma_below(y, x);
    let v = evaluated(l, state, fl)->Is_0;
    let w = evaluated(r, state, fl)->Is_0;
    assert(as_double(v, fl) == Some(x));
    assert(as_double(w, fl) == Some(y));
    assert(evaluated(joined(BinOp::Lt, l, r), state, fl) == combined(BinOp::Lt, v, w, fl));
    assert(evaluated(joined(BinOp::Gt, l, r), state, fl) == combined(BinOp::Gt, v, w, fl));
    assert(evaluated(joined(BinOp::Eq, l, r), state, fl) == combined(BinOp::Eq, v, w, fl));
}

/// Where one operand of arithmetic is no integer but both are numbers, the unit is asked for the
/// operation of that name on the two doubles, in the order written, and the answer is the result.
pub proof fn law_arithmetic_goes_to_the_unit(
    l: ExprModel,
    r: ExprModel,
    state: Map<Seq<char>, ValueModel>,
    fl: Unit,
    x: u64,
    y: u64,
)
    requires
        evaluated(l, state, fl) matches Outcome::Is(v) && number_as(fl, v, x),
        evaluated(r, state, fl) matches Outcome::Is(v) && number_as(fl, v, y),
        !(evaluated(l, state, fl) matches Outcome::Is(v) && v is Int) || !(evaluated(r, state, fl) matches
            Outcome::Is(v) && v is Int),
    ensures
        evaluated(joined(BinOp::Add, l, r), state, fl) == Outcome::Is(
            ValueModel::Float(answer(fl, FloatQuery::Add { a: x, b: y })),
        ),
        evaluated(joined(BinOp::Sub, l, r), state, fl) == Outcome::Is(
            ValueModel::Float(answer(fl, FloatQuery::Sub { a: x, b: y })),
        ),
        evaluated(joined(BinOp::Mul, l, r), state, fl) == Outcome::Is(
            ValueModel::Float(answer(fl, FloatQuery::Mul { a: x, b: y })),
        ),
        evaluated(joined(BinOp::Div, l, r), state, fl) == Outcome::Is(
            ValueModel::Float(answer(fl, FloatQuery::Div { a: x, b: y })),
        ),
{
    reveal_with_fuel(evaluated, 3);
}

/// The value is no number.
pub open spec fn wordy(v: ValueModel) -> bool {
    v is Bool || v is Text || v is Color || v is List
}

/// With an operand that is no number there is no arithmetic and no order, and equality holds
/// between values of one kind with one content only.
pub proof fn law_other_values_only_equal(
    l: ExprModel,
    r: ExprModel,
    state: Map<Seq<char>, ValueModel>,
    fl: Unit,
    v: ValueModel,
    w: ValueModel,
    op: BinOp,
)
    requires
        evaluated(l, state, fl) == Outcome::Is(v),
        evaluated(r, state, fl) == Outcome::Is(w),
        wordy(v) || wordy(w),
    ensures
        op != BinOp::Eq ==> evaluated(joined(op, l, r), state, fl) is Nothing,
        ({
            let equal = evaluated(joined(BinOp::Eq, l, r), state, fl);
            &&& truth(equal, true) || truth(equal, false)
            &&& wordy(v) != wordy(w) ==> truth(equal, false)
            &&& v is Bool && w is Bool ==> truth(equal, v == w)
            &&& v is Text && w is Text ==> truth(equal, v == w)
            &&& v is Color && w is Color ==> truth(equal, v == w)
            &&& v is Bool && !(w is Bool) ==> truth(equal, false)
            &&& v is Text && !(w is Text) ==> truth(equal, false)
            &&& v is Color && !(w is Color) ==> truth(equal, false)
            &&& v is List && !(w is List) ==> truth(equal, false)
        }),
{
    reveal_with_fuel(evaluated, 3);
}

/// The value counts as false: the one false, zero of either sign, the empty text and the empty
/// list.
pub open spec fn hollow(v: ValueModel) -> bool {
    ||| v == ValueModel::Bool(false)
    ||| v == ValueModel::Int(0)
    ||| v == ValueModel::Float(0)
    ||| v == ValueModel::Float(0x8000_0000_0000_0000)
    ||| v == ValueModel::Px(0)
    ||| v == ValueModel::Px(0x8000_0000)
    ||| v == ValueModel::Text(Seq::empty())
    ||| v == ValueModel::List(Seq::empty())
}

/// A logical negation is true of the hollow values and false of all others, and two of them say
/// whether the operand counts as true.
pub proof fn law_not_is_true_of_hollow_values(
    x: ExprModel,
    state: Map<Seq<char>, ValueModel>,
    fl: Unit,
    v: ValueModel,
)
    requires
        evaluated(x, state, fl) == Outcome::Is(v),
    ensures
        truth(evaluated(behind(UnOp::Not, x), state, fl), hollow(v)),
        truth(evaluated(behind(UnOp::Not, behind(UnOp::Not, x)), state, fl), !hollow(v)),
{
    reveal_with_fuel(evaluated, 3);
    assert(truthy(v) == !hollow(v)) by {
        match v {
            ValueModel::Text(s) => {
                assert(s.len() == 0 ==> s =~= Seq::empty());
            },
            ValueModel::List(s) => {
                assert(s.len() == 0 ==> s =~= Seq::empty());
            },
            _ => {},
        }
    }
}

/// A negation of a double or a length flips the sign bit and keeps its kind, and there is none of
/// what is no number.
pub proof fn law_negation_flips_the_sign(x: ExprModel, state: Map<Seq<char>, ValueModel>, fl: Unit, v: ValueModel)
    requires
        evaluated(x, state, fl) == Outcome::Is(v),
    ensures
        v matches ValueModel::Float(f) ==> evaluated(behind(UnOp::Neg, x), state, fl) matches Outcome::Is(
            ValueModel::Float(g),
        ) && (g == f + 0x8000_0000_0000_0000 || f == g + 0x8000_0000_0000_0000),
        v matches ValueModel::Px(p) ==> evaluated(behind(UnOp::Neg, x), state, fl) matches Outcome::Is(
            ValueModel::Px(q),
        ) && (q == p + 0x8000_0000 || p == q + 0x8000_0000),
        wordy(v) ==> evaluated(behind(UnOp::Neg, x), state, fl) is Nothing,
{
    reveal_with_fuel(evaluated, 3);
}

/// The key stands in the expression.
pub open spec fn mentions(e: ExprModel, k: Seq<char>) -> bool
    decreases e,
{
    match e {
        ExprModel::Literal(_) => false,
        ExprModel::Key(n) => n == k,
        ExprModel::Un(_, x) => mentions(*x, k),
        ExprModel::Bin(_, l, r) => mentions(*l, k) || mentions(*r, k),
    }
}

/// The expression with a value in place of a key.
pub open spec fn filled(e: ExprModel, k: Seq<char>, v: ValueModel) -> ExprModel
    decreases e,
{
    match e {
        ExprModel::Literal(_) => e,
        ExprModel::Key(n) => if n == k {
            ExprModel::Literal(v)
        } else {
            e
        },
        ExprModel::Un(op, x) => ExprModel::Un(op, Box::new(filled(*x, k, v))),
        ExprModel::Bin(op, l, r) => ExprModel::Bin(
            op,
            Box::new(filled(*l, k, v)),
            Box::new(filled(*r, k, v)),
        ),
    }
}

/// A key means the value that the state holds under it: writing a value under a key comes to the
/// same as writing the value in place of the key, and is nothing to an expression without the key.
pub proof fn law_key_means_its_value(
    e: ExprModel,
    k: Seq<char>,
    v: ValueModel,
    state: Map<Seq<char>, ValueModel>,
    fl: Unit,
)
    ensures
        evaluated(e, state.insert(k, v), fl) == evaluated(filled(e, k, v), state, fl),
        !mentions(e, k) ==> evaluated(e, state.insert(k, v), fl) == evaluated(e, state, fl),
    decreases e,
{
    match e {
        ExprModel::Un(_, x) => {
            law_key_means_its_value(*x, k, v, state, fl);
        },
        ExprModel::Bin(_, l, r) => {
            law_key_means_its_value(*l, k, v, state, fl);
            law_key_means_its_value(*r, k, v, state, fl);
        },
        _ => {},
    }
}

/// A key that the state does not hold comes to nothing, and an operand that comes to no value makes
/// the whole come to the same, the left one first.
pub proof fn law_missing_operand_is_passed_on(
    op: BinOp,
    un: UnOp,
    l: ExprModel,
    r: ExprModel,
    k: Seq<char>,
    state: Map<Seq<char>, ValueModel>,
    fl: Unit,
)
    ensures
        !state.dom().contains(k) ==> evaluated(ExprModel::Key(k), state, fl) is Nothing,
        !(evaluated(l, state, fl) is Is) ==> {
            &&& evaluated(joined(op, l, r), state, fl) == evaluated(l, state, fl)
            &&& evaluated(behind(un, l), state, fl) == evaluated(l, state, fl)
        },
        evaluated(l, state, fl) is Is && !(evaluated(r, state, fl) is Is) ==> evaluated(
            joined(op, l, r),
            state,
            fl,
        ) == evaluated(r, state, fl),
{
    reveal_with_fuel(evaluated, 2);
}

/// How tightly an operator holds its operands.
pub open spec fn strength(op: BinOp) -> nat {
    match op {
        BinOp::Mul | BinOp::Div => 2,
        BinOp::Add | BinOp::Sub => 1,
        _ => 0,
    }
}

/// The token of an operator.
pub open spec fn token_of(op: BinOp) -> Lexeme {
    match op {
        BinOp::Add => Lexeme::Plus,
        BinOp::Sub => Lexeme::Minus,
        BinOp::Mul => Lexeme::Star,
        BinOp::Div => Lexeme::Slash,
        BinOp::Gt => Lexeme::Gt,
        BinOp::Lt => Lexeme::Lt,
        BinOp::Eq => Lexeme::EqEq,
    }
}

/// The expression can be written down: its literals have tokens, and no key is a literal's name.
pub open spec fn writable(e: ExprModel) -> bool
    decreases e,
{
    match e {
        ExprModel::Literal(v) => v is Int || v is Float || v is Text || v is Bool,
        ExprModel::Key(k) => k != "true"@ && k != "false"@,
        ExprModel::Un(_, x) => writable(*x),
        ExprModel::Bin(_, l, r) => writable(*l) && writable(*r),
    }
}

/// The tokens of an expression as an operand of operators of a strength: in brackets where its own
/// operator is weaker, and with the left operand of equal strength bare.
pub open spec fn spelled(e: ExprModel, level: nat) -> Seq<Lexeme>
    decreases e, (if e matches ExprModel::Bin(op, _, _) && strength(op) < level {
        1int
    } else {
        0int
    }),
{
    match e {
        ExprModel::Literal(ValueModel::Int(n)) => seq![Lexeme::Int(n)],
        ExprModel::Literal(ValueModel::Float(b)) => seq![Lexeme::Num(b)],
        ExprModel::Literal(ValueModel::Text(s)) => seq![Lexeme::Str(s)],
        ExprModel::Literal(ValueModel::Bool(x)) => seq![
            Lexeme::Ident(
                if x {
                    "true"@
                } else {
                    "false"@
                },
            ),
        ],
        ExprModel::Literal(_) => Seq::empty(),
        ExprModel::Key(k) => seq![Lexeme::Ident(k)],
        ExprModel::Un(op, x) => seq![
            if op == UnOp::Not {
                Lexeme::Bang
            } else {
                Lexeme::Minus
            },
        ] + spelled(*x, 3),
        ExprModel::Bin(op, l, r) => if strength(op) < level {
            seq![Lexeme::LParen] + spelled(e, 0) + seq![Lexeme::RParen]
        } else {
            spelled(*l, strength(op)) + seq![token_of(op)] + spelled(*r, strength(op) + 1)
        },
    }
}

/// The tokens `w` stand in `t` from place `p` on.
pub open spec fn stands(t: Seq<Lexeme>, p: int, w: Seq<Lexeme>) -> bool {
    0 <= p && p + w.len() <= t.len() && forall|i: int| 0 <= i < w.len() ==> #[trigger] t[p + i] == w[i]
}

/// No operator that holds more tightly than `level` stands at `q`.
pub open spec fn loose(t: Seq<Lexeme>, q: int, level: nat) -> bool {
    q >= t.len() || forall|k: nat| level < k < 3 ==> level_op(t[q], k) is None
}

proof fn lemma_stands(t: Seq<Lexeme>, p: int, a: Seq<Lexeme>, b: Seq<Lexeme>)
    requires
        stands(t, p, a + b),
    ensures
        stands(t, p, a),
        stands(t, p + a.len(), b),
{
    assert forall|i: int| 0 <= i < a.len() implies #[trigger] t[p + i] == a[i] by {
        assert(t[p + i] == (a + b)[i]);
    }
    assert forall|i: int| 0 <= i < b.len() implies #[trigger] t[p + a.len() + i] == b[i] by {
        assert(t[p + (a.len() + i)] == (a + b)[a.len() + i]);
    }
}

spec fn effort(e: ExprModel, level: nat) -> int {
    if e matches ExprModel::Bin(op, _, _) && strength(op) < level {
        10 + 3 - level
    } else {
        3 - level
    }
}

proof fn lemma_spelled(t: Seq<Lexeme>, p: int, e: ExprModel, level: nat)
    requires
        writable(e),
        level <= 3,
        stands(t, p, spelled(e, level)),
        loose(t, p + spelled(e, level).len(), level),
    ensures
        spelled(e, level).len() > 0,
        level < 3 ==> chain(t, p, level) == chained(t, p + spelled(e, level).len(), level, e),
        level == 3 ==> chain(t, p, 3) == Some((e, p + spelled(e, level).len())),
    decreases e, effort(e, level),
{
    let w = spelled(e, level);
    let q = p + w.len();
    if e is Bin && strength(e->Bin_0) == level {
        let op = e->Bin_0;
        let l = e->Bin_1;
        let r = e->Bin_2;
        let k = strength(op);
        let a = spelled(*l, k);
        let b = spelled(*r, k + 1);
        assert(w == a + seq![token_of(op)] + b);
        lemma_stands(t, p, a + seq![token_of(op)], b);
        lemma_stands(t, p, a, seq![token_of(op)]);
        let m = p + a.len();
        assert(t[m + 0] == seq![token_of(op)][0]);
        assert(t[m] == token_of(op));
        lemma_spelled(t, p, *l, k);
        lemma_spelled(t, m + 1, *r, k + 1);
        assert(chained(t, m, k, *l) == match chain(t, m + 1, k + 1) {
            Some((x, n)) => if m < n <= t.len() {
                chained(t, n, k, ExprModel::Bin(op, Box::new(*l), Box::new(x)))
            } else {
                None
            },
            None => None,
        });
        if k + 1 < 3 {
            assert(chained(t, q, k + 1, *r) == Some((*r, q)));
        }
        assert(chain(t, m + 1, k + 1) == Some((*r, q)));
    } else if level < 3 {
        assert(spelled(e, level + 1) == w);
        lemma_spelled(t, p, e, level + 1);
        if level + 1 < 3 {
            assert(chained(t, q, level + 1, e) == Some((e, q)));
        }
        assert(chain(t, p, level + 1) == Some((e, q)));
    } else {
        assert(t[p + 0] == w[0]) by {
            reveal_with_fuel(spelled, 2);
            assert(w.len() > 0);
        }
        match e {
            ExprModel::Un(op, x) => {
                let s = seq![
                    if op == UnOp::Not {
                        Lexeme::Bang
                    } else {
                        Lexeme::Minus
                    },
                ];
                lemma_stands(t, p, s, spelled(*x, 3));
                lemma_spelled(t, p + 1, *x, 3);
                assert(chain(t, p + 1, 3) == negated(t, p + 1));
            },
            ExprModel::Bin(op, l, r) => {
                let inner = spelled(e, 0);
                assert(w == seq![Lexeme::LParen] + inner + seq![Lexeme::RParen]);
                lemma_stands(t, p, seq![Lexeme::LParen] + inner, seq![Lexeme::RParen]);
                lemma_stands(t, p, seq![Lexeme::LParen], inner);
                assert(t[q - 1 + 0] == seq![Lexeme::RParen][0]);
                lemma_spelled(t, p + 1, e, 0);
                assert(chained(t, q - 1, 0, e) == Some((e, q - 1)));
                assert(negated(t, p) == primary(t, p));
            },
            _ => {
                reveal_strlit("true");
                reveal_strlit("false");
                assert("true"@[0] != "false"@[0]);
                assert(negated(t, p) == primary(t, p));
            },
        }
    }
}

/// Every expression is read back from its tokens: products hold their operands more tightly than
/// sums and sums more tightly than comparisons, operators of one strength group from the left,
/// negations hold most tightly, and brackets hold together what is in them.
pub proof fn law_tokens_give_the_expression(src: Seq<char>, fl: Unit, e: ExprModel)
    requires
        writable(e),
        lexed(src, 0, fl) == spelled(e, 0),
    ensures
        parsed(src, fl) == e,
{
    let t = spelled(e, 0);
    lemma_spelled(t, 0, e, 0);
    assert(chained(t, t.len() as int, 0, e) == Some((e, t.len() as int)));
}

/// The text between two places, from the first on and up to the second, as it stands.
pub open spec fn excerpt(s: Seq<char>, i: int, e: int, w: Seq<char>) -> bool {
    &&& 0 <= i <= e <= s.len()
    &&& w.len() == e - i
    &&& forall|k: int| 0 <= k < w.len() ==> #[trigger] w[k] == s[i + k]
}

/// Signs are tokens of their own, `==` is one token and a lone `=` is none, and blanks stand for
/// nothing.
pub proof fn law_signs_are_tokens(s: Seq<char>, i: int, fl: Unit)
    requires
        0 <= i < s.len(),
    ensures
        s[i] == ' ' || s[i] == '\t' || s[i] == '\n' || s[i] == '\r' ==> lexed(s, i, fl) == lexed(s, i + 1, fl),
        s[i] == '+' ==> lexed(s, i, fl) == seq![Lexeme::Plus] + lexed(s, i + 1, fl),
        s[i] == '-' ==> lexed(s, i, fl) == seq![Lexeme::Minus] + lexed(s, i + 1, fl),
        s[i] == '*' ==> lexed(s, i, fl) == seq![Lexeme::Star] + lexed(s, i + 1, fl),
        s[i] == '/' ==> lexed(s, i, fl) == seq![Lexeme::Slash] + lexed(s, i + 1, fl),
        s[i] == '>' ==> lexed(s, i, fl) == seq![Lexeme::Gt] + lexed(s, i + 1, fl),
        s[i] == '<' ==> lexed(s, i, fl) == seq![Lexeme::Lt] + lexed(s, i + 1, fl),
        s[i] == '!' ==> lexed(s, i, fl) == seq![Lexeme::Bang] + lexed(s, i + 1, fl),
        s[i] == '(' ==> lexed(s, i, fl) == seq![Lexeme::LParen] + lexed(s, i + 1, fl),
        s[i] == ')' ==> lexed(s, i, fl) == seq![Lexeme::RParen] + lexed(s, i + 1, fl),
        s[i] == '=' && i + 1 < s.len() && s[i + 1] == '=' ==> lexed(s, i, fl) == seq![Lexeme::EqEq] + lexed(
            s,
            i + 2,
            fl,
        ),
        s[i] == '=' && !(i + 1 < s.len() && s[i + 1] == '=') ==> lexed(s, i, fl) == lexed(s, i + 1, fl),
{
}

proof fn lemma_quote_end(s: Seq<char>, i: int, e: int, quote: char)
    requires
        0 <= i <= e < s.len(),
        s[e] == quote,
        forall|k: int| i <= k < e ==> s[k] != quote,
    ensures
        quote_end(s, i, quote) == e,
    decreases e - i,
{
    if i < e {
        lemma_quote_end(s, i + 1, e, quote);
    }
}

/// A text in quotes of either kind is the token of what stands between them, whatever that is.
pub proof fn law_quoted_text_is_a_token(s: Seq<char>, i: int, w: Seq<char>, fl: Unit)
    requires
        0 <= i,
        i + w.len() + 1 < s.len(),
        s[i] == '"' || s[i] == '\'',
        s[i + w.len() + 1] == s[i],
        excerpt(s, i + 1, i + 1 + w.len(), w),
        !w.contains(s[i]),
    ensures
        lexed(s, i, fl) == seq![Lexeme::Str(w)] + lexed(s, i + w.len() + 2, fl),
{
    let e = i + w.len() + 1;
    assert forall|k: int| i + 1 <= k < e implies s[k] != s[i] by {
        assert(w[k - i - 1] == s[i + 1 + (k - i - 1)]);
        assert(w.contains(w[k - i - 1]));
    }
    lemma_quote_end(s, i + 1, e, s[i]);
    assert(s.subrange(i + 1, e) =~= w) by {
        assert forall|k: int| 0 <= k < w.len() implies s.subrange(i + 1, e)[k] == w[k] by {
            assert(w[k] == s[i + 1 + k]);
        }
    }
}

proof fn lemma_name_end(s: Seq<char>, i: int, e: int)
    requires
        0 <= i <= e <= s.len(),
        forall|k: int| i <= k < e ==> names_on(#[trigger] s[k]),
        e == s.len() || !names_on(s[e]),
    ensures
        name_end(s, i) == e,
    decreases e - i,
{
    if i < e {
        assert(names_on(s[i]));
        lemma_name_end(s, i + 1, e);
    }
}

/// A name goes on through letters, digits, underscores and dots, and is one token.
pub proof fn law_name_is_a_token(s: Seq<char>, i: int, w: Seq<char>, fl: Unit)
    requires
        0 <= i,
        one_name(w),
        excerpt(s, i, i + w.len(), w),
        i + w.len() == s.len() || !names_on(s[i + w.len()]),
    ensures
        lexed(s, i, fl) == seq![Lexeme::Ident(w)] + lexed(s, i + w.len(), fl),
{
    let e = i + w.len();
    assert(w[0] == s[i + 0]);
    assert forall|k: int| i <= k < e implies names_on(#[trigger] s[k]) by {
        assert(w[k - i] == s[i + (k - i)]);
    }
    lemma_name_end(s, i, e);
    assert(s.subrange(i, e) =~= w) by {
        assert forall|k: int| 0 <= k < w.len() implies s.subrange(i, e)[k] == w[k] by {
            assert(w[k] == s[i + k]);
        }
    }
}

proof fn lemma_number_end(s: Seq<char>, i: int, e: int)
    requires
        0 <= i <= e <= s.len(),
        forall|k: int| i <= k < e ==> is_digit(#[trigger] s[k]),
        e == s.len() || (!is_digit(s[e]) && s[e] != '.'),
    ensures
        number_end(s, i, false) == (e, false),
    decreases e - i,
{
    if i < e {
        assert(is_digit(s[i]));
        lemma_number_end(s, i + 1, e);
    }
}

/// The decimal text of a natural number that fits 64 bits is the token of the number.
pub proof fn law_number_is_a_token(s: Seq<char>, i: int, n: i64, fl: Unit)
    requires
        0 <= i,
        0 <= n,
        excerpt(s, i, i + signed_decimal(n as int).len(), signed_decimal(n as int)),
        i + signed_decimal(n as int).len() == s.len() || (!is_digit(s[i + signed_decimal(n as int).len()])
            && s[i + signed_decimal(n as int).len()] != '.'),
    ensures
        lexed(s, i, fl) == seq![Lexeme::Int(n)] + lexed(s, i + signed_decimal(n as int).len(), fl),
{
    let w = signed_decimal(n as int);
    let e = i + w.len();
    law_integer_is_read_back(n);
    assert(w[0] == s[i + 0]);
    assert forall|k: int| i <= k < e implies is_digit(#[trigger] s[k]) by {
        assert(w[k - i] == s[i + (k - i)]);
    }
    lemma_number_end(s, i, e);
    assert(is_digit(s[i]));
    assert(sign(s[i]) is None);
    assert(s.subrange(i, e) =~= w) by {
        assert forall|k: int| 0 <= k < w.len() implies s.subrange(i, e)[k] == w[k] by {
            assert(w[k] == s[i + k]);
        }
    }
}

} // verus!
