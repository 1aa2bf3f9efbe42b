//! How a property is animated: the descriptor a node carries, the curve it names, and where an
//! animation stands at a time. Numbers are singles by their bits.
use vstd::prelude::*;

use crate::float::{
    add32, ask, at_most_single, difference, div32, eq32, equal_single, greater_of, int32, le32,
    less_single, low_half, lt32, max32, mul32, narrow, narrow32, of_int, product, ratio, steady, sub32,
    sum, unit, FloatOp, FloatQuery, Unit,
};
use crate::node::{Node, NodeId, NodeModel};
use crate::text::{chars_of, code, same, text_of, white};
use crate::value::{Value, ValueModel};

verus! {

/// The shape of an animation over its time.
#[derive(Debug, Clone, Copy, PartialEq, Eq, Structural)]
pub enum Curve {
    Linear,
    EaseIn,
    EaseOut,
    EaseInOut,
    /// A spring, by how fast it responds and how strongly it is damped.
    Spring { response: u32, damping: u32 },
}

/// A curve and how many seconds it takes.
#[derive(Debug, Clone, Copy, PartialEq, Eq, Structural)]
pub struct Animation {
    pub curve: Curve,
    pub duration: u32,
}

/// The shortest duration, a thousandth.
pub const MIN_DURATION: u32 = 0x3A83_126F;

/// The duration of an animation that names none, three tenths.
pub const DEFAULT_DURATION: u32 = 0x3E99_999A;

/// How strongly a spring is damped, 0.825.
pub const SPRING_DAMPING: u32 = 0x3F53_3333;

/// Milliseconds in a second, 1000.
pub const THOUSAND: u32 = 0x447A_0000;

/// One.
pub const ONE: u32 = 0x3F80_0000;

/// The animation of a node that asks for one without naming it.
pub open spec fn plain_animation() -> Animation {
    Animation { curve: Curve::EaseInOut, duration: DEFAULT_DURATION }
}

/// The animation of a node that asks for one without naming it: three tenths of a second, easing
/// in and out.
pub fn default_animation() -> (r: Animation)
    ensures
        r == plain_animation(),
{
    Animation { curve: Curve::EaseInOut, duration: DEFAULT_DURATION }
}

/// A letter in lower case; other characters stay.
pub open spec fn lower(c: char) -> char {
    if 65 <= c as int <= 90 {
        (c as int + 32) as char
    } else {
        c
    }
}

/// A text in lower case.
pub open spec fn lowered(s: Seq<char>) -> Seq<char> {
    s.map_values(|c: char| lower(c))
}

/// The place of the first character from `i` on that is no white space.
pub open spec fn word_start(s: Seq<char>, i: int) -> int
    decreases s.len() - i,
{
    if 0 <= i < s.len() && white(s[i]) {
        word_start(s, i + 1)
    } else {
        i
    }
}

/// The end of the run of characters at `i` that are no white space.
pub open spec fn word_end(s: Seq<char>, i: int) -> int
    decreases s.len() - i,
{
    if 0 <= i < s.len() && !white(s[i]) {
        word_end(s, i + 1)
    } else {
        i
    }
}

/// The text ends in another.
pub open spec fn ends_in(s: Seq<char>, end: Seq<char>) -> bool {
    s.len() >= end.len() && s.skip(s.len() - end.len()) == end
}

/// The single that a text denotes, if it denotes one.
pub open spec fn number(fl: Unit, s: Seq<char>) -> Option<u32> {
    match fl(FloatQuery::ReadSingle { text: s }) {
        Some(b) => Some(low_half(b)),
        None => None,
    }
}

/// The seconds that a word denotes: a number with `ms`, `s` or nothing behind it.
pub open spec fn seconds(fl: Unit, s: Seq<char>) -> Option<u32> {
    if ends_in(s, seq!['m', 's']) {
        match number(fl, s.take(s.len() - 2)) {
            Some(v) => Some(div32(fl, v, THOUSAND)),
            None => None,
        }
    } else if ends_in(s, seq!['s']) {
        number(fl, s.take(s.len() - 1))
    } else {
        number(fl, s)
    }
}

/// The curve that a word names.
pub open spec fn curve_named(s: Seq<char>) -> Option<Curve> {
    if s == "linear"@ {
        Some(Curve::Linear)
    } else if s == "ease-in"@ || s == "easein"@ {
        Some(Curve::EaseIn)
    } else if s == "ease-out"@ || s == "easeout"@ {
        Some(Curve::EaseOut)
    } else if s == "ease-in-out"@ || s == "ease"@ || s == "easeinout"@ {
        Some(Curve::EaseInOut)
    } else {
        None
    }
}

/// A spring that takes a given time.
pub open spec fn spring(duration: u32) -> Animation {
    Animation {
        curve: Curve::Spring { response: DEFAULT_DURATION, damping: SPRING_DAMPING },
        duration: max32(duration, MIN_DURATION),
    }
}

/// The animation that the words from `i` on describe, over what was found before. Each word is a
/// curve or a duration, or nothing; a spring stays one whatever curve another word names.
pub open spec fn described(
    fl: Unit,
    s: Seq<char>,
    i: int,
    curve: Curve,
    duration: u32,
    springs: bool,
) -> Animation
    decreases s.len() - i,
{
    let a = word_start(s, i);
    let b = word_end(s, a);
    if i < 0 || a >= s.len() || !(i <= a < b <= s.len()) {
        if springs {
            spring(duration)
        } else {
            Animation { curve, duration: max32(duration, MIN_DURATION) }
        }
    } else {
        let w = lowered(s.subrange(a, b));
        match curve_named(w) {
            Some(c) => described(fl, s, b, c, duration, springs),
            None => if w == "spring"@ {
                described(fl, s, b, curve, duration, true)
            } else {
                match seconds(fl, w) {
                    Some(d) => described(
                        fl,
                        s,
                        b,
                        curve,
                        if lt32(MIN_DURATION, d) {
                            d
                        } else {
                            MIN_DURATION
                        },
                        springs,
                    ),
                    None => described(fl, s, b, curve, duration, springs),
                }
            },
        }
    }
}

/// The animation that a text describes.
pub open spec fn animation_of(fl: Unit, s: Seq<char>) -> Animation {
    described(fl, s, 0, Curve::EaseInOut, DEFAULT_DURATION, false)
}

fn lower_char(c: char) -> (r: char)
    ensures
        r == lower(c),
{
    let x: u32 = code(c);
    if 65 <= x && x <= 90 {
        let y: u8 = (x + 32) as u8;
        y as char
    } else {
        c
    }
}

fn lower_part(cs: &Vec<char>, from: usize, to: usize) -> (r: Vec<char>)
    requires
        from <= to <= cs@.len(),
    ensures
        r@ == lowered(cs@.subrange(from as int, to as int)),
{
    let mut out: Vec<char> = Vec::new();
    let mut i: usize = from;
    while i < to
        invariant
            from <= i <= to <= cs@.len(),
            out@ == lowered(cs@.subrange(from as int, i as int)),
        decreases to - i,
    {
        out.push(lower_char(cs[i]));
        i += 1;
        assert(out@ =~= lowered(cs@.subrange(from as int, i as int)));
    }
    out
}

fn front(cs: &Vec<char>, n: usize) -> (r: String)
    requires
        n <= cs@.len(),
    ensures
        r@ == cs@.take(n as int),
{
    let mut out: Vec<char> = Vec::new();
    let mut i: usize = 0;
    while i < n
        invariant
            i <= n <= cs@.len(),
            out@ == cs@.take(i as int),
        decreases n - i,
    {
        out.push(cs[i]);
        i += 1;
        assert(out@ =~= cs@.take(i as int));
    }
    text_of(&out)
}

fn read_number<F: Fn(&FloatOp) -> Option<u64>>(text: String, fl: &F) -> (r: Option<u32>)
    requires
        steady(*fl),
    ensures
        r == number(unit(*fl), text@),
{
    match ask(fl, &FloatOp::ReadSingle { text }) {
        Some(b) => Some((b % 0x1_0000_0000) as u32),
        None => None,
    }
}

fn parse_duration<F: Fn(&FloatOp) -> Option<u64>>(cs: &Vec<char>, fl: &F) -> (r: Option<u32>)
    requires
        steady(*fl),
    ensures
        r == seconds(unit(*fl), cs@),
{
    let n: usize = cs.len();
    let ms = n >= 2 && cs[n - 2] == 'm' && cs[n - 1] == 's';
    let s = n >= 1 && cs[n - 1] == 's';
    proof {
        let two = seq!['m', 's'];
        let one = seq!['s'];
        if n >= 2 {
            let end = cs@.skip(n - 2);
            assert(end[0] == cs@[n - 2] && end[1] == cs@[n - 1]);
            if ms {
                assert(end =~= two);
            } else {
                assert(two[0] == 'm' && two[1] == 's');
            }
        }
        if n >= 1 {
            let end = cs@.skip(n - 1);
            assert(end[0] == cs@[n - 1]);
            if s {
                assert(end =~= one);
            } else {
                assert(one[0] == 's');
            }
        }
        assert(ends_in(cs@, two) == ms);
        assert(ends_in(cs@, one) == s);
        assert(cs@.take(n as int) =~= cs@);
    }
    if ms {
        match read_number(front(cs, n - 2), fl) {
            Some(v) => Some(ratio(fl, v, THOUSAND)),
            None => None,
        }
    } else if s {
        read_number(front(cs, n - 1), fl)
    } else {
        read_number(front(cs, n), fl)
    }
}

fn curve_of(s: &str) -> (r: Option<Curve>)
    ensures
        r == curve_named(s@),
{
    if same(s, "linear") {
        Some(Curve::Linear)
    } else if same(s, "ease-in") || same(s, "easein") {
        Some(Curve::EaseIn)
    } else if same(s, "ease-out") || same(s, "easeout") {
        Some(Curve::EaseOut)
    } else if same(s, "ease-in-out") || same(s, "ease") || same(s, "easeinout") {
        Some(Curve::EaseInOut)
    } else {
        None
    }
}

/// The animation that a text describes, such as `300ms ease-in-out` or `0.5s spring`. The words
/// come in any order and case; those that mean nothing are passed over. One of them being
/// `spring`, the curve is a spring, whatever another word names.
pub fn parse_animation<F: Fn(&FloatOp) -> Option<u64>>(desc: &str, fl: &F) -> (r: Animation)
    requires
        steady(*fl),
    ensures
        r == animation_of(unit(*fl), desc@),
{
    let cs = chars_of(desc);
    let n: usize = cs.len();
    let mut curve = Curve::EaseInOut;
    let mut duration: u32 = DEFAULT_DURATION;
    let mut springs: bool = false;
    let mut i: usize = 0;
    loop
        invariant
            steady(*fl),
            cs@ == desc@,
            n == cs@.len(),
            i <= n,
            described(unit(*fl), desc@, i as int, curve, duration, springs)
                == animation_of(unit(*fl), desc@),
        decreases n - i,
    {
        let mut a: usize = i;
        while a < n && cs[a].is_whitespace()
            invariant
                n == cs@.len(),
                i <= a <= n,
                word_start(cs@, i as int) == word_start(cs@, a as int),
            decreases n - a,
        {
            a += 1;
        }
        if a >= n {
            return Animation {
                curve: if springs {
                    Curve::Spring { response: DEFAULT_DURATION, damping: SPRING_DAMPING }
                } else {
                    curve
                },
                duration: greater_of(duration, MIN_DURATION),
            };
        }
        let mut b: usize = a;
        while b < n && !cs[b].is_whitespace()
            invariant
                n == cs@.len(),
                a <= b <= n,
                word_end(cs@, a as int) == word_end(cs@, b as int),
            decreases n - b,
        {
            b += 1;
        }
        assert(!white(cs@[a as int]));
        assert(b > a);
        let w = lower_part(&cs, a, b);
        let word = text_of(&w);
        match curve_of(word.as_str()) {
            Some(c) => {
                curve = c;
            },
            None => {
                if same(word.as_str(), "spring") {
                    springs = true;
                } else {
                    match parse_duration(&w, fl) {
                        Some(d) => {
                            duration = if less_single(MIN_DURATION, d) {
                                d
                            } else {
                                MIN_DURATION
                            };
                        },
                        None => {},
                    }
                }
            },
        }
        i = b;
    }
}

/// The number that a value is to an animation.
pub open spec fn scalar(fl: Unit, v: ValueModel) -> Option<u32> {
    match v {
        ValueModel::Px(x) => Some(x),
        ValueModel::Float(x) => Some(narrow32(fl, x)),
        ValueModel::Int(x) => Some(int32(fl, x)),
        ValueModel::Bool(b) => Some(
            if b {
                ONE
            } else {
                0
            },
        ),
        _ => None,
    }
}

/// The number that a value is to an animation; a truth value is one or zero.
pub fn value_as_f32<F: Fn(&FloatOp) -> Option<u64>>(v: &Value, fl: &F) -> (r: Option<u32>)
    requires
        steady(*fl),
    ensures
        r == scalar(unit(*fl), v@),
{
    match v {
        Value::Px(x) => Some(*x),
        Value::Float(x) => Some(narrow(fl, *x)),
        Value::Int(x) => Some(of_int(fl, *x)),
        Value::Bool(b) => Some(
            if *b {
                ONE
            } else {
                0
            },
        ),
        _ => None,
    }
}

/// The number under `key`.
pub open spec fn scalar_at(fl: Unit, n: NodeModel, key: Seq<char>) -> Option<u32> {
    if n.props.dom().contains(key) {
        scalar(fl, n.props[key])
    } else {
        None
    }
}

/// The number under `key`.
pub fn number_of<F: Fn(&FloatOp) -> Option<u64>>(node: &Node, key: &str, fl: &F) -> (r: Option<u32>)
    requires
        steady(*fl),
    ensures
        r == scalar_at(unit(*fl), node@, key@),
{
    match node.props.get(key) {
        Some(v) => value_as_f32(v, fl),
        None => None,
    }
}

/// The node is presented: its `presented` is true, or a number other than zero.
pub open spec fn presented(fl: Unit, n: NodeModel) -> bool {
    if n.props.dom().contains("presented"@) {
        match n.props["presented"@] {
            ValueModel::Bool(b) => b,
            v => match scalar(fl, v) {
                Some(x) => !eq32(x, 0),
                None => false,
            },
        }
    } else {
        false
    }
}

/// `true` exactly when the node is presented.
pub fn node_is_presented<F: Fn(&FloatOp) -> Option<u64>>(node: &Node, fl: &F) -> (r: bool)
    requires
        steady(*fl),
    ensures
        r == presented(unit(*fl), node@),
{
    match node.props.get("presented") {
        Some(Value::Bool(b)) => *b,
        Some(v) => match value_as_f32(v, fl) {
            Some(x) => !equal_single(x, 0),
            None => false,
        },
        None => false,
    }
}

/// The animation that a node carries: what its `animation` describes, the default where that is
/// no text, none where it has none.
pub open spec fn carried(fl: Unit, n: NodeModel) -> Option<Animation> {
    if n.props.dom().contains("animation"@) {
        match n.props["animation"@] {
            ValueModel::Text(s) => Some(animation_of(fl, s)),
            _ => Some(plain_animation()),
        }
    } else {
        None
    }
}

/// The animation that a node carries.
pub fn node_animation<F: Fn(&FloatOp) -> Option<u64>>(node: &Node, fl: &F) -> (r: Option<Animation>)
    requires
        steady(*fl),
    ensures
        r == carried(unit(*fl), node@),
{
    match node.props.get("animation") {
        Some(Value::Text(desc)) => Some(parse_animation(desc.as_str(), fl)),
        Some(_) => Some(default_animation()),
        None => None,
    }
}

/// The sampler takes every animation and time and always answers alike.
pub open spec fn samples<S: Fn(Animation, u32) -> u32>(s: S) -> bool {
    &&& forall|a: Animation, t: u32| #[trigger] call_requires(s, (a, t))
    &&& forall|a: Animation, t: u32, x: u32, y: u32| #[trigger]
        call_ensures(s, (a, t), x) && #[trigger] call_ensures(s, (a, t), y) ==> x == y
}

/// A sampler as a mathematical function: how far an animation is at a time, from zero to one.
pub type Sampler = spec_fn(Animation, u32) -> u32;

/// The function that a sampler computes.
pub open spec fn sampler<S: Fn(Animation, u32) -> u32>(s: S) -> Sampler {
    |a: Animation, t: u32| choose|x: u32| call_ensures(s, (a, t), x)
}

/// An animation of one property of one node that is going on.
#[derive(Debug)]
pub struct ImplicitEntry {
    pub id: NodeId,
    pub prop: String,
    pub from: u32,
    pub to: u32,
    pub anim: Animation,
    /// The seconds that it has been going on.
    pub elapsed: u32,
}

/// An [`ImplicitEntry`] as mathematics.
#[verifier::ext_equal]
pub struct EntryModel {
    pub id: NodeId,
    pub prop: Seq<char>,
    pub from: u32,
    pub to: u32,
    pub anim: Animation,
    pub elapsed: u32,
}

impl View for ImplicitEntry {
    type V = EntryModel;

    open spec fn view(&self) -> EntryModel {
        EntryModel {
            id: self.id,
            prop: self.prop@,
            from: self.from,
            to: self.to,
            anim: self.anim,
            elapsed: self.elapsed,
        }
    }
}

/// The animation has taken its time.
pub open spec fn done(e: EntryModel) -> bool {
    le32(e.anim.duration, e.elapsed)
}

/// Where the property stands: at its target when the animation has taken its time, else as far
/// on the way as the curve says.
pub open spec fn shown(fl: Unit, s: Sampler, e: EntryModel) -> u32 {
    if done(e) {
        e.to
    } else {
        add32(fl, e.from, mul32(fl, sub32(fl, e.to, e.from), s(e.anim, e.elapsed)))
    }
}

impl ImplicitEntry {
    /// `true` exactly when the animation has taken its time.
    pub fn is_done(&self) -> (r: bool)
        ensures
            r == done(self@),
    {
        at_most_single(self.anim.duration, self.elapsed)
    }

    /// Where the property stands.
    pub fn value<F: Fn(&FloatOp) -> Option<u64>, S: Fn(Animation, u32) -> u32>(&self, fl: &F, s: &S) -> (r: u32)
        requires
            steady(*fl),
            samples(*s),
        ensures
            r == shown(unit(*fl), sampler(*s), self@),
    {
        if self.is_done() {
            return self.to;
        }
        let f: u32 = s(self.anim, self.elapsed);
        sum(fl, self.from, product(fl, difference(fl, self.to, self.from), f))
    }
}

/// A finished animation stands at its target, whatever its curve.
pub proof fn law_finished_stands_at_target(fl: Unit, s: Sampler, e: EntryModel)
    requires
        done(e),
    ensures
        shown(fl, s, e) == e.to,
{
}

} // verus!
