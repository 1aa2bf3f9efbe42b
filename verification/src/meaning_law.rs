//! What nodes, words, widths and window events mean to those who meet them.
use vstd::prelude::*;

use crate::a11y::{described as entry_of, Role};
use crate::animation::{
    animation_of, curve_named, described, lowered, seconds, word_end, word_start, Animation, Curve,
};
use crate::env::{class_of_width, hundredths, window_env, WidthClass};
use crate::expr_law::answer;
use crate::float::{FloatQuery, Unit};
use crate::gesture_law::{at_most, lemma_at_most, numeric};
use crate::input::{
    button_of, cursor_after, translated, InputModel, Keystroke, MouseKey, PointerButton, WindowInput,
};
use crate::layout::ComputedRect;
use crate::node::NodeModel;
use crate::place_law::said;
use crate::value::ValueModel;
use crate::window::{orders_for, viewport_of, WindowSignal};

verus! {

/// The text that a node has under a name.
pub open spec fn worded(n: NodeModel, key: Seq<char>, s: Seq<char>) -> bool {
    n.props.dom().contains(key) && n.props[key] == ValueModel::Text(s)
}

/// The node has no text under a name.
pub open spec fn wordless(n: NodeModel, key: Seq<char>) -> bool {
    n.props.dom().contains(key) ==> !(n.props[key] is Text)
}

/// To a screen reader a text is a label, a button is a button, and what holds others is a group; a
/// node is called by its label, else its name, else its content; it is where its rectangle is, and
/// it can be used exactly where it answers a click.
pub proof fn law_node_is_described_to_readers(
    fl: Unit,
    n: NodeModel,
    r: ComputedRect,
    children: Seq<u64>,
    s: Seq<char>,
)
    ensures
        ({
            let e = entry_of(fl, n, r, children);
            &&& n.kind == "Text"@ ==> e.role == Role::Label
            &&& n.kind == "Button"@ ==> e.role == Role::Button
            &&& n.kind == "Stack"@ || n.kind == "Row"@ || n.kind == "Column"@ || n.kind == "Grid"@ ==> e.role
                == Role::Group
            &&& n.kind == "Rect"@ || n.kind == "Image"@ ==> e.role == Role::GenericContainer
            &&& e.role != Role::Window
            &&& worded(n, "label"@, s) ==> e.label == Some(s)
            &&& wordless(n, "label"@) && worded(n, "name"@, s) ==> e.label == Some(s)
            &&& wordless(n, "label"@) && wordless(n, "name"@) && worded(n, "content"@, s) ==> e.label == Some(s)
            &&& wordless(n, "label"@) && wordless(n, "name"@) && wordless(n, "content"@) ==> e.label is None
            &&& e.actionable <==> n.callbacks.dom().contains("click"@)
            &&& e.children == children
            &&& e.bounds matches Some(b) && {
                &&& b.x0 == answer(fl, FloatQuery::Widen { single: r.x })
                &&& b.y0 == answer(fl, FloatQuery::Widen { single: r.y })
                &&& b.x1 == answer(
                    fl,
                    FloatQuery::Widen { single: said(fl, FloatQuery::AddSingle { x: r.x, y: r.w }) },
                )
                &&& b.y1 == answer(
                    fl,
                    FloatQuery::Widen { single: said(fl, FloatQuery::AddSingle { x: r.y, y: r.h }) },
                )
            }
        }),
{
    reveal_strlit("Text");
    reveal_strlit("Button");
    reveal_strlit("Stack");
    reveal_strlit("Row");
    reveal_strlit("Column");
    reveal_strlit("Grid");
    reveal_strlit("Rect");
    reveal_strlit("Image");
    assert("Text"@.len() == 4 && "Button"@.len() == 6 && "Stack"@.len() == 5 && "Row"@.len() == 3);
    assert("Column"@.len() == 6 && "Grid"@.len() == 4 && "Rect"@.len() == 4 && "Image"@.len() == 5);
    assert("Text"@[0] == 'T' && "Grid"@[0] == 'G' && "Rect"@[0] == 'R' && "Stack"@[0] == 'S');
    assert("Image"@[0] == 'I' && "Button"@[0] == 'B' && "Column"@[0] == 'C');
}

/// The words of a text from a place on, in lower case.
pub open spec fn words_from(s: Seq<char>, i: int) -> Seq<Seq<char>>
    decreases s.len() - i,
{
    let a = word_start(s, i);
    let b = word_end(s, a);
    if i < 0 || a >= s.len() || !(i <= a < b <= s.len()) {
        Seq::empty()
    } else {
        seq![lowered(s.subrange(a, b))] + words_from(s, b)
    }
}

/// The last curve that a row of words names, or the one before.
pub open spec fn last_curve(ws: Seq<Seq<char>>, before: Curve) -> Curve
    decreases ws.len(),
{
    if ws.len() == 0 {
        before
    } else {
        match curve_named(ws.last()) {
            Some(c) => c,
            None => last_curve(ws.drop_last(), before),
        }
    }
}

/// The word gives a time.
pub open spec fn timed(fl: Unit, w: Seq<char>) -> bool {
    curve_named(w) is None && w != "spring"@ && seconds(fl, w) is Some
}

/// The last time that a row of words gives, or the one before; none is shorter than a thousandth of
/// a second.
pub open spec fn last_time(fl: Unit, ws: Seq<Seq<char>>, before: u32) -> u32
    decreases ws.len(),
{
    if ws.len() == 0 {
        before
    } else if timed(fl, ws.last()) {
        let d = seconds(fl, ws.last())->0;
        if numeric(d) && !at_most(d, 0x3A83_126F) {
            d
        } else {
            0x3A83_126F
        }
    } else {
        last_time(fl, ws.drop_last(), before)
    }
}

/// The row of words names a spring.
pub open spec fn springy(ws: Seq<Seq<char>>) -> bool {
    exists|k: int| 0 <= k < ws.len() && #[trigger] ws[k] == "spring"@
}

proof fn lemma_first(fl: Unit, w: Seq<char>, ws: Seq<Seq<char>>, curve: Curve, time: u32)
    ensures
        last_curve(seq![w] + ws, curve) == last_curve(
            ws,
            match curve_named(w) {
                Some(c) => c,
                None => curve,
            },
        ),
        last_time(fl, seq![w] + ws, time) == last_time(fl, ws, last_time(fl, seq![w], time)),
        springy(seq![w] + ws) <==> w == "spring"@ || springy(ws),
    decreases ws.len(),
{
    let all = seq![w] + ws;
    reveal_with_fuel(last_curve, 3);
    reveal_with_fuel(last_time, 3);
    if ws.len() == 0 {
        assert(all =~= seq![w]);
        assert(all.drop_last() =~= Seq::empty());
    } else {
        assert(all.drop_last() =~= seq![w] + ws.drop_last());
        assert(all.last() == ws.last());
        lemma_first(fl, w, ws.drop_last(), curve, time);
    }
    if springy(ws) {
        let k = choose|k: int| 0 <= k < ws.len() && #[trigger] ws[k] == "spring"@;
        assert(all[k + 1] == "spring"@);
    }
    if springy(all) && w != "spring"@ {
        let k = choose|k: int| 0 <= k < all.len() && #[trigger] all[k] == "spring"@;
        assert(ws[k - 1] == "spring"@);
    }
    assert(all[0] == w);
}

/// The longer of two times, where both are numbers.
pub open spec fn longer(d: u32, least: u32) -> u32 {
    if !numeric(d) || !at_most(least, d) {
        least
    } else {
        d
    }
}

proof fn lemma_described(fl: Unit, s: Seq<char>, i: int, curve: Curve, time: u32, springs: bool)
    ensures
        ({
            let ws = words_from(s, i);
            let d = longer(last_time(fl, ws, time), 0x3A83_126F);
            described(fl, s, i, curve, time, springs) == if springs || springy(ws) {
                Animation { curve: Curve::Spring { response: 0x3E99_999A, damping: 0x3F53_3333 }, duration: d }
            } else {
                Animation { curve: last_curve(ws, curve), duration: d }
            }
        }),
    decreases s.len() - i,
{
    let a = word_start(s, i);
    let b = word_end(s, a);
    if i < 0 || a >= s.len() || !(i <= a < b <= s.len()) {
        lemma_at_most(time, 0x3A83_126F);
    } else {
        let w = lowered(s.subrange(a, b));
        let rest = words_from(s, b);
        lemma_first(fl, w, rest, curve, time);
        let one = last_time(fl, seq![w], time);
        assert(seq![w].drop_last() =~= Seq::<Seq<char>>::empty());
        reveal_with_fuel(last_time, 2);
        reveal_strlit("spring");
        reveal_strlit("linear");
        reveal_strlit("easein");
        assert("spring"@.len() == 6 && "linear"@.len() == 6 && "easein"@.len() == 6);
        assert("spring"@[0] == 's' && "linear"@[0] == 'l' && "easein"@[0] == 'e');
        match curve_named(w) {
            Some(c) => {
                assert(w != "spring"@) by {
                    reveal_strlit("ease-in");
                    reveal_strlit("ease-out");
                    reveal_strlit("easeout");
                    reveal_strlit("ease-in-out");
                    reveal_strlit("ease");
                    reveal_strlit("easeinout");
                    assert("ease-in"@[0] == 'e' && "ease-out"@[0] == 'e' && "easeout"@[0] == 'e');
                    assert("ease-in-out"@[0] == 'e' && "ease"@[0] == 'e' && "easeinout"@[0] == 'e');
                }
                lemma_described(fl, s, b, c, time, springs);
            },
            None => {
                if w == "spring"@ {
                    lemma_described(fl, s, b, curve, time, true);
                } else {
                    match seconds(fl, w) {
                        Some(d) => {
                            lemma_at_most(0x3A83_126F, d);
                            lemma_described(fl, s, b, curve, one, springs);
                        },
                        None => {
                            lemma_described(fl, s, b, curve, time, springs);
                        },
                    }
                }
            },
        }
    }
}

/// An animation is what its words say, whatever their order: the last curve that is named, easing in
/// and out where none is, but a spring where one is named anywhere; and the last time that is
/// given, three tenths of a second where none is, and never less than a thousandth.
pub proof fn law_animation_is_its_words(fl: Unit, s: Seq<char>)
    ensures
        ({
            let ws = words_from(s, 0);
            let d = longer(last_time(fl, ws, 0x3E99_999A), 0x3A83_126F);
            animation_of(fl, s) == if springy(ws) {
                Animation { curve: Curve::Spring { response: 0x3E99_999A, damping: 0x3F53_3333 }, duration: d }
            } else {
                Animation { curve: last_curve(ws, Curve::EaseInOut), duration: d }
            }
        }),
{
    lemma_described(fl, s, 0, Curve::EaseInOut, 0x3E99_999A, false);
}

/// The words for curves name them, and a time is a number of seconds, or of thousandths where `ms`
/// stands behind it.
pub proof fn law_words_name_curves_and_times(fl: Unit, w: Seq<char>, n: Seq<char>)
    ensures
        w == "linear"@ ==> curve_named(w) == Some(Curve::Linear),
        w == "ease-in"@ || w == "easein"@ ==> curve_named(w) == Some(Curve::EaseIn),
        w == "ease-out"@ || w == "easeout"@ ==> curve_named(w) == Some(Curve::EaseOut),
        w == "ease"@ || w == "ease-in-out"@ || w == "easeinout"@ ==> curve_named(w) == Some(Curve::EaseInOut),
        n.len() > 0 && n.last() != 'm' ==> seconds(fl, n + seq!['s']) == match fl(
            FloatQuery::ReadSingle { text: n },
        ) {
            Some(_) => Some(said(fl, FloatQuery::ReadSingle { text: n })),
            None => None,
        },
        seconds(fl, n + seq!['m', 's']) == match fl(FloatQuery::ReadSingle { text: n }) {
            Some(_) => Some(
                said(
                    fl,
                    FloatQuery::DivSingle { x: said(fl, FloatQuery::ReadSingle { text: n }), y: 0x447A_0000 },
                ),
            ),
            None => None,
        },
        n.len() > 0 && n.last() != 's' ==> seconds(fl, n) == match fl(FloatQuery::ReadSingle { text: n }) {
            Some(_) => Some(said(fl, FloatQuery::ReadSingle { text: n })),
            None => None,
        },
{
    reveal_strlit("linear");
    reveal_strlit("ease-in");
    reveal_strlit("easein");
    reveal_strlit("ease-out");
    reveal_strlit("easeout");
    reveal_strlit("ease");
    reveal_strlit("ease-in-out");
    reveal_strlit("easeinout");
    assert("linear"@.len() == 6 && "ease-in"@.len() == 7 && "easein"@.len() == 6 && "ease-out"@.len() == 8);
    assert("easeout"@.len() == 7 && "ease"@.len() == 4 && "ease-in-out"@.len() == 11 && "easeinout"@.len() == 9);
    assert("linear"@[0] == 'l' && "easein"@[0] == 'e' && "ease-in"@[4] == '-' && "easeout"@[4] == 'o');
    let ms = n + seq!['m', 's'];
    assert(ms.skip(ms.len() - 2) =~= seq!['m', 's']);
    assert(ms.take(ms.len() - 2) =~= n);
    let s = n + seq!['s'];
    assert(s.skip(s.len() - 1) =~= seq!['s']);
    assert(s.take(s.len() - 1) =~= n);
    if n.len() > 0 {
        assert(s.skip(s.len() - 2)[0] == n.last());
        assert(n.skip(n.len() - 1)[0] == n.last());
        if n.len() >= 2 {
            assert(n.skip(n.len() - 2)[1] == n.last());
        }
    }
    assert(seq!['m', 's'][0] == 'm' && seq!['m', 's'][1] == 's' && seq!['s'][0] == 's');
}

/// A window narrower than 600 is compact, one from there and narrower than 840 is medium, and any
/// other is wide; a phone, a tablet and a desktop have those widths.
pub proof fn law_width_has_its_class(w: u32, h: u32)
    requires
        numeric(w),
    ensures
        ({
            let c = class_of_width(w);
            let e = window_env(w, h);
            &&& !at_most(0x4416_0000, w) ==> c == WidthClass::Compact && e.surface_kind
                == crate::env::SurfaceKind::Phone
            &&& at_most(0x4416_0000, w) && !at_most(0x4452_0000, w) ==> c == WidthClass::Medium && e.surface_kind
                == crate::env::SurfaceKind::Tablet
            &&& at_most(0x4452_0000, w) ==> c == WidthClass::Expanded && e.surface_kind
                == crate::env::SurfaceKind::Desktop
            &&& e.win_w == w && e.win_h == h
            &&& e.density == 0x3F80_0000 && e.text_scale == 0x3F80_0000
        }),
{
    lemma_at_most(w, 0x4416_0000);
    lemma_at_most(w, 0x4452_0000);
}

/// A physical length at a scale.
pub open spec fn scaled(fl: Unit, length: u64, scale: u64) -> u32 {
    said(
        fl,
        FloatQuery::DivSingle {
            x: said(fl, FloatQuery::Narrow { double: length }),
            y: said(fl, FloatQuery::Narrow { double: scale }),
        },
    )
}

/// The pointer is where it last moved to, at the scale of the window, and a button goes down or up
/// there; nothing but a move moves it.
pub proof fn law_buttons_act_where_the_pointer_is(
    fl: Unit,
    x: u64,
    y: u64,
    scale: u64,
    cursor: (u32, u32),
    key: MouseKey,
    e: WindowInput,
)
    ensures
        ({
            let moved = cursor_after(fl, WindowInput::CursorMoved { x, y }, scale, cursor);
            &&& moved == (scaled(fl, x, scale), scaled(fl, y, scale))
            &&& translated(fl, WindowInput::CursorMoved { x, y }, scale, cursor) == Some(
                InputModel::PointerMoved { x: moved.0, y: moved.1 },
            )
            &&& translated(fl, WindowInput::MouseInput { pressed: true, button: key }, scale, moved) == Some(
                InputModel::PointerDown { x: moved.0, y: moved.1, button: button_of(key) },
            )
            &&& translated(fl, WindowInput::MouseInput { pressed: false, button: key }, scale, moved) == Some(
                InputModel::PointerUp { x: moved.0, y: moved.1, button: button_of(key) },
            )
        }),
        !(e is CursorMoved) ==> cursor_after(fl, e, scale, cursor) == cursor,
        key is Left <==> button_of(key) == PointerButton::Left,
        key is Right <==> button_of(key) == PointerButton::Right,
        key is Middle <==> button_of(key) == PointerButton::Middle,
        key is Back ==> button_of(key) == PointerButton::Other(4),
        key is Forward ==> button_of(key) == PointerButton::Other(5),
{
}

/// A wheel that turns by lines scrolls sixteen for each, and one that scrolls by pixels scrolls as
/// far as the pointer would move.
pub proof fn law_wheels_scroll(fl: Unit, lx: u32, ly: u32, px: u64, py: u64, scale: u64, cursor: (u32, u32))
    ensures
        translated(fl, WindowInput::LineWheel { x: lx, y: ly }, scale, cursor) == Some(
            InputModel::Scroll {
                dx: said(fl, FloatQuery::MulSingle { x: lx, y: 0x4180_0000 }),
                dy: said(fl, FloatQuery::MulSingle { x: ly, y: 0x4180_0000 }),
            },
        ),
        translated(fl, WindowInput::PixelWheel { x: px, y: py }, scale, cursor) == Some(
            InputModel::Scroll { dx: scaled(fl, px, scale), dy: scaled(fl, py, scale) },
        ),
        translated(fl, WindowInput::Other, scale, cursor) is None,
{
}

/// A window that closes prints its log and ends; one of another size or scale sets its surface up
/// anew; a frame that is due is rendered, and asks for the next exactly while something moves;
/// nothing else is asked of it.
pub proof fn law_window_is_told_what_to_do(
    fl: Unit,
    signal: WindowSignal,
    size: (u32, u32),
    scale: u64,
    animating: bool,
)
    ensures
        ({
            let o = orders_for(signal, size, scale, animating);
            &&& o.exit <==> signal is CloseRequested
            &&& o.print_log <==> signal is CloseRequested
            &&& signal matches WindowSignal::Resized { width, height } ==> o.resize == Some((width, height, scale))
            &&& signal matches WindowSignal::ScaleChanged { scale_factor } ==> o.resize == Some(
                (size.0, size.1, scale_factor),
            )
            &&& o.resize is Some <==> signal is Resized || signal is ScaleChanged
            &&& o.commit <==> signal is Resized
            &&& o.render <==> signal is RedrawRequested
            &&& o.redraw <==> signal is Resized || (signal is RedrawRequested && animating)
            &&& o.poll == if signal is RedrawRequested {
                Some(animating)
            } else {
                None
            }
        }),
        ({
            let v = viewport_of(fl, size.0, size.1, scale);
            let s = said(fl, FloatQuery::Narrow { double: scale });
            &&& v.0 == said(
                fl,
                FloatQuery::DivSingle { x: said(fl, FloatQuery::FromIntSingle { value: size.0 as i64 }), y: s },
            )
            &&& v.1 == said(
                fl,
                FloatQuery::DivSingle { x: said(fl, FloatQuery::FromIntSingle { value: size.1 as i64 }), y: s },
            )
        }),
{
}

/// A part of a length in hundredths is the length by the part, over one hundred.
pub proof fn law_hundredths_are_parts_of_a_hundred(fl: Unit, of: u32, f: u32)
    ensures
        hundredths(of, f, fl) == said(
            fl,
            FloatQuery::DivSingle { x: said(fl, FloatQuery::MulSingle { x: of, y: f }), y: 0x42C8_0000 },
        ),
{
}

/// A key that types something is named by what it types, and any other by its own name; that it goes
/// down or up is told with that name, wherever the pointer is.
pub proof fn law_key_is_named_by_what_it_types(
    fl: Unit,
    k: Keystroke,
    scale: u64,
    cursor: (u32, u32),
    name: Seq<char>,
)
    requires
        match k {
            Keystroke::Character(s) => name == s@,
            Keystroke::Named(s) => name == s@,
            Keystroke::Dead(Some(c)) => name == seq![c],
            Keystroke::Dead(None) => name == "Dead"@,
            Keystroke::Unidentified => name == "Unidentified"@,
        },
    ensures
        translated(fl, WindowInput::Keyboard { pressed: true, key: k }, scale, cursor) == Some(
            InputModel::KeyDown { key: name },
        ),
        translated(fl, WindowInput::Keyboard { pressed: false, key: k }, scale, cursor) == Some(
            InputModel::KeyUp { key: name },
        ),
{
}

} // verus!
