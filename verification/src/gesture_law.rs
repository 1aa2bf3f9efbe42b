//! What gestures make of where the pointer goes and of how long it stays.
use vstd::prelude::*;

use crate::float::{le32, lt32, FloatQuery, Unit};
use crate::gesture::{
    cancelled, concluded, distance, fed, fresh, gesture_event_name, ticked, GestureEvent, GestureKind, Phase,
    RecognizerModel,
};
use crate::input::{InputModel, PointerButton};
use crate::node::NodeId;
use crate::place_law::said;

verus! {

/// The bits of a single are those of a number.
pub open spec fn numeric(x: u32) -> bool {
    x <= 0x7F80_0000 || 0x8000_0000 <= x <= 0xFF80_0000
}

/// The single of the first bits is at most that of the second.
pub open spec fn at_most(x: u32, y: u32) -> bool {
    &&& numeric(x) && numeric(y)
    &&& if x < 0x8000_0000 && y < 0x8000_0000 {
        x <= y
    } else if x >= 0x8000_0000 && y >= 0x8000_0000 {
        x >= y
    } else {
        x >= 0x8000_0000 || (x == 0 && y == 0x8000_0000)
    }
}

/// The order of singles as it is computed is that of their bits.
pub proof fn lemma_at_most(x: u32, y: u32)
    ensures
        le32(x, y) == at_most(x, y),
        lt32(x, y) == (numeric(x) && numeric(y) && !at_most(y, x)),
{
}

/// A sum does not depend on which operand comes first.
pub open spec fn adds_either_way(fl: Unit) -> bool {
    forall|x: u32, y: u32| #[trigger]
        said(fl, FloatQuery::AddSingle { x, y }) == said(fl, FloatQuery::AddSingle { x: y, y: x })
}

/// A distance treats both axes alike: it stays when the axes of both points are exchanged.
pub proof fn law_distance_treats_axes_alike(fl: Unit, a: (u32, u32), b: (u32, u32))
    requires
        adds_either_way(fl),
    ensures
        distance(fl, a, b) == distance(fl, (a.1, a.0), (b.1, b.0)),
{
    let dx = said(fl, FloatQuery::SubSingle { x: a.0, y: b.0 });
    let dy = said(fl, FloatQuery::SubSingle { x: a.1, y: b.1 });
    let xx = said(fl, FloatQuery::MulSingle { x: dx, y: dx });
    let yy = said(fl, FloatQuery::MulSingle { x: dy, y: dy });
    assert(said(fl, FloatQuery::AddSingle { x: xx, y: yy }) == said(fl, FloatQuery::AddSingle { x: yy, y: xx }));
}

/// The square of an integer.
pub open spec fn square(r: int) -> int {
    r * r
}

/// The unit computes exactly on the singles that are `fine`, where the results stay within `most`,
/// when `val` is the integer that a fine single stands for. So a unit does on whole numbers up to
/// two to the 24th.
pub open spec fn exact(fl: Unit, fine: spec_fn(u32) -> bool, val: spec_fn(u32) -> int, most: int) -> bool {
    &&& forall|x: u32, y: u32|
        fine(x) && fine(y) && -most <= val(x) + val(y) <= most ==> {
            let s = #[trigger] said(fl, FloatQuery::AddSingle { x, y });
            fine(s) && val(s) == val(x) + val(y)
        }
    &&& forall|x: u32, y: u32|
        fine(x) && fine(y) && -most <= val(x) - val(y) <= most ==> {
            let s = #[trigger] said(fl, FloatQuery::SubSingle { x, y });
            fine(s) && val(s) == val(x) - val(y)
        }
    &&& forall|x: u32|
        fine(x) && square(val(x)) <= most ==> {
            let s = #[trigger] said(fl, FloatQuery::MulSingle { x, y: x });
            fine(s) && val(s) == square(val(x))
        }
    &&& forall|x: u32, r: int|
        fine(x) && 0 <= r <= most && #[trigger] square(r) == val(x) ==> {
            let s = #[trigger] said(fl, FloatQuery::SqrtSingle { x });
            fine(s) && val(s) == r
        }
    &&& forall|x: u32, y: u32| fine(x) && fine(y) ==> (#[trigger] at_most(x, y) <==> val(x) <= val(y))
}

proof fn lemma_root(r: int, s: int)
    requires
        square(r) == s,
        0 <= r,
    ensures
        r <= s,
        square(-r) == s,
{
    assert(r <= r * r) by (nonlinear_arith)
        requires
            0 <= r,
    ;
    assert((-r) * (-r) == r * r) by (nonlinear_arith);
}

/// A distance is what the differences along both axes make together: on numbers with which the unit
/// computes exactly, its square is the sum of their squares.
pub proof fn law_distance_is_euclidean(
    fl: Unit,
    fine: spec_fn(u32) -> bool,
    val: spec_fn(u32) -> int,
    most: int,
    a: (u32, u32),
    b: (u32, u32),
    r: int,
)
    requires
        exact(fl, fine, val, most),
        fine(a.0) && fine(a.1) && fine(b.0) && fine(b.1),
        0 <= r,
        square(r) == square(val(a.0) - val(b.0)) + square(val(a.1) - val(b.1)),
        square(r) <= most,
    ensures
        val(distance(fl, a, b)) == r,
        fine(distance(fl, a, b)),
{
    let p = val(a.0) - val(b.0);
    let q = val(a.1) - val(b.1);
    assert(square(p) >= 0 && square(q) >= 0 && -square(p) <= p <= square(p) && -square(q) <= q <= square(q))
        by (nonlinear_arith)
        requires
            square(p) == p * p,
            square(q) == q * q,
    ;
    let dx = said(fl, FloatQuery::SubSingle { x: a.0, y: b.0 });
    let dy = said(fl, FloatQuery::SubSingle { x: a.1, y: b.1 });
    assert(val(dx) == p && val(dy) == q);
    let xx = said(fl, FloatQuery::MulSingle { x: dx, y: dx });
    let yy = said(fl, FloatQuery::MulSingle { x: dy, y: dy });
    assert(val(xx) == square(p) && val(yy) == square(q));
    let s = said(fl, FloatQuery::AddSingle { x: xx, y: yy });
    assert(val(s) == square(r));
    lemma_root(r, square(r));
    let d = said(fl, FloatQuery::SqrtSingle { x: s });
    assert(val(d) == r && fine(d));
}

/// A move along one axis alone counts by its length, whichever axis that is: a pending drag goes on
/// when it is no shorter than the least distance, and a pending tap or long press is over when it
/// is longer than ten.
pub proof fn law_move_along_either_axis_counts(
    fl: Unit,
    fine: spec_fn(u32) -> bool,
    val: spec_fn(u32) -> int,
    most: int,
    m: RecognizerModel,
    x: u32,
    y: u32,
    step: int,
)
    requires
        exact(fl, fine, val, most),
        fine(x) && fine(y) && fine(m.press_origin.0) && fine(m.press_origin.1),
        val(y) == val(m.press_origin.1) && (step == val(x) - val(m.press_origin.0) || step == val(
            m.press_origin.0,
        ) - val(x)) || val(x) == val(m.press_origin.0) && (step == val(y) - val(m.press_origin.1) || step
            == val(m.press_origin.1) - val(y)),
        0 <= step,
        square(step) <= most,
        m.phase == Phase::Pending,
        fine(0x4120_0000) && val(0x4120_0000) == 10,
    ensures
        m.kind matches GestureKind::Drag { min_distance } ==> fine(min_distance) ==> {
            let (after, events) = fed(fl, m, InputModel::PointerMoved { x, y }, true);
            &&& step >= val(min_distance) ==> events == seq![GestureEvent::Changed] && after.phase == Phase::Active
            &&& step < val(min_distance) ==> events.len() == 0 && after.phase == Phase::Pending
        },
        m.kind is Tap || m.kind is LongPress ==> {
            let (after, events) = fed(fl, m, InputModel::PointerMoved { x, y }, true);
            &&& events.len() == 0
            &&& after.phase == if step > 10 {
                Phase::Idle
            } else {
                Phase::Pending
            }
        },
        m.kind matches GestureKind::Tap { count } ==> {
            let (after, events) = fed(
                fl,
                m,
                InputModel::PointerUp { x, y, button: PointerButton::Left },
                true,
            );
            &&& after.phase == Phase::Idle
            &&& step > 10 ==> events.len() == 0 && after.tap_count == 0
            &&& step <= 10 && m.tap_count + 1 >= count ==> events == seq![GestureEvent::Recognized]
            &&& step <= 10 && m.tap_count + 1 < count ==> events.len() == 0 && after.tap_count == m.tap_count + 1
        },
{
    lemma_root(step, square(step));
    assert(square(0) == 0);
    law_distance_is_euclidean(fl, fine, val, most, (x, y), m.press_origin, step);
    let d = distance(fl, (x, y), m.press_origin);
    lemma_at_most(d, 0x4120_0000);
    if let GestureKind::Drag { min_distance } = m.kind {
        lemma_at_most(min_distance, d);
    }
}

/// No event, passing of time or end changes what a recogniser is for.
pub proof fn law_recogniser_keeps_its_purpose(fl: Unit, m: RecognizerModel, e: InputModel, hit: bool, dt: u32)
    ensures
        ({
            let n = fed(fl, m, e, hit).0;
            n.node == m.node && n.action == m.action && n.kind == m.kind
        }),
        ({
            let n = ticked(fl, m, dt).0;
            n.node == m.node && n.action == m.action && n.kind == m.kind
        }),
        ({
            let n = concluded(m).0;
            n.node == m.node && n.action == m.action && n.kind == m.kind
        }),
        ({
            let n = cancelled(m);
            n.node == m.node && n.action == m.action && n.kind == m.kind
        }),
{
}

/// A press on the node with the left button begins a tap, a long press or a drag where the pointer
/// is, and reports nothing; a press with another button begins none.
pub proof fn law_press_begins_a_gesture(fl: Unit, m: RecognizerModel, x: u32, y: u32, button: PointerButton)
    requires
        m.kind is Tap || m.kind is LongPress || m.kind is Drag,
    ensures
        fed(fl, m, InputModel::PointerDown { x, y, button }, true).1.len() == 0,
        button == PointerButton::Left ==> {
            let n = fed(fl, m, InputModel::PointerDown { x, y, button }, true).0;
            &&& n.phase == Phase::Pending
            &&& n.press_origin == (x, y)
            &&& n.tap_count == m.tap_count
            &&& m.kind is LongPress ==> n.held == 0 && !n.long_fired
            &&& m.kind is Drag ==> n.moved_by == (0u32, 0u32)
        },
        button != PointerButton::Left ==> fed(fl, m, InputModel::PointerDown { x, y, button }, true).0 == m,
{
}

/// While a drag goes on it is as far from its press, along each axis, as the pointer is, and the
/// press stays where it was. It reports every move, and its end once; after the end, or without a
/// press, the pointer moves freely.
pub proof fn law_drag_follows_the_pointer(fl: Unit, m: RecognizerModel, x: u32, y: u32, button: PointerButton)
    requires
        m.kind is Drag,
    ensures
        ({
            let (n, events) = fed(fl, m, InputModel::PointerMoved { x, y }, true);
            &&& m.phase == Phase::Idle ==> n == m && events.len() == 0
            &&& m.phase != Phase::Idle ==> {
                &&& n.moved_by.0 == said(fl, FloatQuery::SubSingle { x, y: m.press_origin.0 })
                &&& n.moved_by.1 == said(fl, FloatQuery::SubSingle { x: y, y: m.press_origin.1 })
                &&& n.press_origin == m.press_origin
                &&& n.cursor == (x, y)
            }
            &&& m.phase == Phase::Active ==> n.phase == Phase::Active && events == seq![GestureEvent::Changed]
        }),
        ({
            let (n, events) = fed(fl, m, InputModel::PointerUp { x, y, button }, true);
            &&& n.phase == Phase::Idle
            &&& m.phase == Phase::Active ==> {
                &&& events == seq![GestureEvent::Ended]
                &&& n.moved_by.0 == said(fl, FloatQuery::SubSingle { x, y: m.press_origin.0 })
                &&& n.moved_by.1 == said(fl, FloatQuery::SubSingle { x: y, y: m.press_origin.1 })
            }
            &&& m.phase != Phase::Active ==> events.len() == 0
        }),
{
}

/// The tap is in place: it was let go where the distance from the press is no more than ten.
pub open spec fn lands(fl: Unit, p: (u32, u32), q: (u32, u32)) -> bool {
    at_most(distance(fl, q, p), 0x4120_0000)
}

/// A recogniser after `k` taps, each pressed and let go in one place, with the number of reports.
pub open spec fn tapped(fl: Unit, m: RecognizerModel, places: Seq<(u32, u32)>, k: nat) -> (RecognizerModel, nat)
    decreases k,
{
    if k == 0 {
        (m, 0)
    } else {
        let (before, n) = tapped(fl, m, places, (k - 1) as nat);
        let (x, y) = places[k - 1];
        let (down, a) = fed(fl, before, InputModel::PointerDown { x, y, button: PointerButton::Left }, true);
        let (up, b) = fed(fl, down, InputModel::PointerUp { x, y, button: PointerButton::Left }, true);
        (up, n + a.len() + b.len())
    }
}

/// So many taps as a recogniser asks for make one report, fewer make none, and then the count
/// starts again.
pub proof fn law_taps_are_counted(
    fl: Unit,
    node: NodeId,
    action: Seq<char>,
    count: u32,
    places: Seq<(u32, u32)>,
    k: nat,
)
    requires
        k <= count,
        k <= places.len(),
        forall|i: int| 0 <= i < places.len() ==> lands(fl, #[trigger] places[i], places[i]),
    ensures
        ({
            let (m, n) = tapped(fl, fresh(node, action, GestureKind::Tap { count }), places, k);
            &&& m.phase == Phase::Idle
            &&& k < count ==> n == 0 && m.tap_count == k
            &&& k == count && 0 < count ==> n == 1 && m.tap_count == 0
        }),
    decreases k,
{
    if k > 0 {
        law_taps_are_counted(fl, node, action, count, places, (k - 1) as nat);
        let start = fresh(node, action, GestureKind::Tap { count });
        lemma_tapped_kind(fl, start, places, (k - 1) as nat);
        let p = places[k - 1];
        assert(lands(fl, places[k - 1], places[k - 1]));
        lemma_at_most(distance(fl, p, p), 0x4120_0000);
    }
}

proof fn lemma_tapped_kind(fl: Unit, m: RecognizerModel, places: Seq<(u32, u32)>, k: nat)
    ensures
        tapped(fl, m, places, k).0.kind == m.kind,
    decreases k,
{
    if k > 0 {
        lemma_tapped_kind(fl, m, places, (k - 1) as nat);
    }
}

/// A long press adds up the time for which it was held and is reported when that reaches its least
/// duration, and not before. Time means nothing to any other gesture, nor to one let go.
pub proof fn law_long_press_adds_up_time(fl: Unit, m: RecognizerModel, dt: u32, x: u32, y: u32, button: PointerButton)
    ensures
        m.kind matches GestureKind::LongPress { min_duration } ==> m.phase == Phase::Pending && !m.long_fired ==> {
            let (n, events) = ticked(fl, m, dt);
            let held = said(fl, FloatQuery::AddSingle { x: m.held, y: dt });
            &&& n.held == held
            &&& at_most(min_duration, held) ==> events == seq![GestureEvent::Recognized] && n.phase != Phase::Pending
            &&& !at_most(min_duration, held) ==> events.len() == 0 && n.phase == Phase::Pending && !n.long_fired
        },
        !(m.kind is LongPress && m.phase == Phase::Pending) ==> ticked(fl, m, dt).0 == m && ticked(
            fl,
            m,
            dt,
        ).1.len() == 0,
        m.kind is LongPress ==> {
            let (n, events) = fed(fl, m, InputModel::PointerUp { x, y, button }, true);
            n.phase == Phase::Idle && n.held == 0 && events.len() == 0
        },
{
    if let GestureKind::LongPress { min_duration } = m.kind {
        lemma_at_most(min_duration, said(fl, FloatQuery::AddSingle { x: m.held, y: dt }));
    }
}

/// Pinches multiply: the first starts from one, each scales what the last left by one more than its
/// delta, and each is reported. Rotations add up from zero in the same way. An end is reported
/// once, and the next starts anew.
pub proof fn law_pinches_multiply_and_rotations_add(fl: Unit, m: RecognizerModel, d: u32)
    ensures
        m.kind is Magnify ==> {
            let (n, events) = fed(fl, m, InputModel::Pinch { delta: d }, true);
            let factor = said(fl, FloatQuery::AddSingle { x: 0x3F80_0000, y: d });
            &&& events == seq![GestureEvent::Changed]
            &&& n.phase == Phase::Active
            &&& n.magnification == said(
                fl,
                FloatQuery::MulSingle {
                    x: if m.phase == Phase::Active {
                        m.magnification
                    } else {
                        0x3F80_0000
                    },
                    y: factor,
                },
            )
            &&& fed(fl, m, InputModel::Rotate { delta: d }, true).0 == m
        },
        m.kind is Rotation ==> {
            let (n, events) = fed(fl, m, InputModel::Rotate { delta: d }, true);
            &&& events == seq![GestureEvent::Changed]
            &&& n.phase == Phase::Active
            &&& n.angle == said(
                fl,
                FloatQuery::AddSingle {
                    x: if m.phase == Phase::Active {
                        m.angle
                    } else {
                        0
                    },
                    y: d,
                },
            )
            &&& fed(fl, m, InputModel::Pinch { delta: d }, true).0 == m
        },
        m.phase == Phase::Active && (m.kind is Magnify || m.kind is Rotation) ==> {
            let (n, events) = concluded(m);
            &&& events == seq![GestureEvent::Ended]
            &&& n.phase == Phase::Idle
            &&& concluded(n) == (n, Seq::<GestureEvent>::empty())
        },
{
}

/// The name of what a gesture fires begins with its action, and tells the three reports apart.
pub proof fn law_event_names_differ(action: Seq<char>, e: GestureEvent, f: GestureEvent)
    ensures
        action.is_prefix_of(gesture_event_name(action, e)),
        gesture_event_name(action, GestureEvent::Recognized) == action,
        gesture_event_name(action, e) == gesture_event_name(action, f) ==> e == f,
        gesture_event_name(action, GestureEvent::Changed).skip(action.len() as int) == "_changed"@,
        gesture_event_name(action, GestureEvent::Ended).skip(action.len() as int) == "_ended"@,
{
    reveal_strlit("_changed");
    reveal_strlit("_ended");
    assert(action.is_prefix_of(gesture_event_name(action, e))) by {
        assert(gesture_event_name(action, e).subrange(0, action.len() as int) =~= action);
    }
    assert((action + "_changed"@).skip(action.len() as int) =~= "_changed"@);
    assert((action + "_ended"@).skip(action.len() as int) =~= "_ended"@);
}

} // verus!
