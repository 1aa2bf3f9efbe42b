//! Gestures: taps, long presses, drags, pinches and rotations, each recognised by a small state
//! machine over input events and time. Numbers are singles by their bits.
use vstd::prelude::*;

use crate::float::{
    add32, at_most_single, difference, le32, mul32, product, single, sqrt32, steady, sub32, sum, unit,
    FloatOp, Unit,
};
use crate::input::{InputEvent, InputModel, PointerButton};
use crate::node::NodeId;
use crate::text::{copy, join};

verus! {

/// What a recogniser looks for.
#[derive(Debug, Clone, Copy, PartialEq, Eq, Structural)]
pub enum GestureKind {
    /// So many presses and releases in place.
    Tap { count: u32 },
    /// A press held in place for so many seconds.
    LongPress { min_duration: u32 },
    /// A press moved at least so far.
    Drag { min_distance: u32 },
    /// Pinches, which multiply into a scale.
    Magnify,
    /// Rotations, which add up to an angle.
    Rotation,
}

/// What a recogniser reports.
#[derive(Debug, Clone, Copy, PartialEq, Eq, Structural)]
pub enum GestureEvent {
    /// A tap or a long press happened.
    Recognized,
    /// A drag, a pinch or a rotation went on.
    Changed,
    /// A drag, a pinch or a rotation is over.
    Ended,
}

/// Where a recogniser stands.
#[derive(Debug, Clone, Copy, PartialEq, Eq, Structural)]
pub enum Phase {
    Idle,
    /// Pressed, but nothing has come of it yet.
    Pending,
    /// Going on.
    Active,
}

/// How far a press may move and still be in place, 10.
pub const TAP_SLOP: u32 = 0x4120_0000;

/// The scale of no magnification, 1.
pub const NO_SCALE: u32 = 0x3F80_0000;

/// A recogniser of one gesture on one node.
#[derive(Debug)]
pub struct Recognizer {
    /// The node that the gesture is on.
    pub node: NodeId,
    /// The name of the action that it fires.
    pub action: String,
    /// What it looks for.
    pub kind: GestureKind,
    /// Where it stands.
    pub phase: Phase,
    /// Where the press began.
    pub press_origin: (u32, u32),
    /// Where the pointer is.
    pub cursor: (u32, u32),
    /// For how many seconds the press was held.
    pub held: u32,
    /// How many taps are done.
    pub tap_count: u32,
    /// How far the drag is from where it began.
    pub moved_by: (u32, u32),
    /// The magnification so far.
    pub magnification: u32,
    /// The angle so far, in radians.
    pub angle: u32,
    /// The long press was reported.
    pub long_fired: bool,
}

/// A [`Recognizer`] as mathematics.
#[verifier::ext_equal]
pub struct RecognizerModel {
    pub node: NodeId,
    pub action: Seq<char>,
    pub kind: GestureKind,
    pub phase: Phase,
    pub press_origin: (u32, u32),
    pub cursor: (u32, u32),
    pub held: u32,
    pub tap_count: u32,
    pub moved_by: (u32, u32),
    pub magnification: u32,
    pub angle: u32,
    pub long_fired: bool,
}

impl View for Recognizer {
    type V = RecognizerModel;

    open spec fn view(&self) -> RecognizerModel {
        RecognizerModel {
            node: self.node,
            action: self.action@,
            kind: self.kind,
            phase: self.phase,
            press_origin: self.press_origin,
            cursor: self.cursor,
            held: self.held,
            tap_count: self.tap_count,
            moved_by: self.moved_by,
            magnification: self.magnification,
            angle: self.angle,
            long_fired: self.long_fired,
        }
    }
}

impl Clone for Recognizer {
    fn clone(&self) -> (r: Recognizer)
        ensures
            r@ == self@,
    {
        Recognizer {
            node: self.node,
            action: copy(self.action.as_str()),
            kind: self.kind,
            phase: self.phase,
            press_origin: self.press_origin,
            cursor: self.cursor,
            held: self.held,
            tap_count: self.tap_count,
            moved_by: self.moved_by,
            magnification: self.magnification,
            angle: self.angle,
            long_fired: self.long_fired,
        }
    }
}

/// A recogniser that has seen nothing yet.
pub open spec fn fresh(node: NodeId, action: Seq<char>, kind: GestureKind) -> RecognizerModel {
    RecognizerModel {
        node,
        action,
        kind,
        phase: Phase::Idle,
        press_origin: (0, 0),
        cursor: (0, 0),
        held: 0,
        tap_count: 0,
        moved_by: (0, 0),
        magnification: NO_SCALE,
        angle: 0,
        long_fired: false,
    }
}

/// The count of taps stays below the greatest that a gesture can ask for.
pub open spec fn counting(m: RecognizerModel) -> bool {
    m.tap_count < u32::MAX
}

/// How far apart two points are.
pub open spec fn distance(fl: Unit, a: (u32, u32), b: (u32, u32)) -> u32 {
    let dx = sub32(fl, a.0, b.0);
    let dy = sub32(fl, a.1, b.1);
    sqrt32(fl, add32(fl, mul32(fl, dx, dx), mul32(fl, dy, dy)))
}

/// The point is close enough to where the press began.
pub open spec fn in_place(fl: Unit, m: RecognizerModel, p: (u32, u32)) -> bool {
    le32(distance(fl, p, m.press_origin), TAP_SLOP)
}

/// What a tap recogniser makes of an event.
pub open spec fn tap_fed(fl: Unit, m: RecognizerModel, e: InputModel, hit: bool, count: u32) -> (
    RecognizerModel,
    Seq<GestureEvent>,
) {
    match e {
        InputModel::PointerDown { x, y, button: PointerButton::Left } => if hit {
            (
                RecognizerModel {
                    press_origin: (x, y),
                    cursor: (x, y),
                    phase: Phase::Pending,
                    ..m
                },
                Seq::empty(),
            )
        } else {
            (m, Seq::empty())
        },
        InputModel::PointerMoved { x, y } => if m.phase == Phase::Pending && !in_place(fl, m, (x, y)) {
            (
                RecognizerModel { cursor: (x, y), phase: Phase::Idle, tap_count: 0, ..m },
                Seq::empty(),
            )
        } else {
            (RecognizerModel { cursor: (x, y), ..m }, Seq::empty())
        },
        InputModel::PointerUp { x, y, button: PointerButton::Left } => if m.phase == Phase::Pending
            && in_place(fl, m, (x, y)) {
            if m.tap_count + 1 >= count {
                (
                    RecognizerModel { phase: Phase::Idle, tap_count: 0, ..m },
                    seq![GestureEvent::Recognized],
                )
            } else {
                (
                    RecognizerModel {
                        phase: Phase::Idle,
                        tap_count: (m.tap_count + 1) as u32,
                        ..m
                    },
                    Seq::empty(),
                )
            }
        } else {
            (RecognizerModel { phase: Phase::Idle, tap_count: 0, ..m }, Seq::empty())
        },
        _ => (m, Seq::empty()),
    }
}

/// What a long press recogniser makes of an event.
pub open spec fn long_press_fed(fl: Unit, m: RecognizerModel, e: InputModel, hit: bool) -> (
    RecognizerModel,
    Seq<GestureEvent>,
) {
    match e {
        InputModel::PointerDown { x, y, button: PointerButton::Left } => if hit {
            (
                RecognizerModel {
                    press_origin: (x, y),
                    cursor: (x, y),
                    held: 0,
                    long_fired: false,
                    phase: Phase::Pending,
                    ..m
                },
                Seq::empty(),
            )
        } else {
            (m, Seq::empty())
        },
        InputModel::PointerMoved { x, y } => if m.phase == Phase::Pending && !in_place(fl, m, (x, y)) {
            (RecognizerModel { cursor: (x, y), phase: Phase::Idle, ..m }, Seq::empty())
        } else {
            (RecognizerModel { cursor: (x, y), ..m }, Seq::empty())
        },
        InputModel::PointerUp { .. } => (
            RecognizerModel { phase: Phase::Idle, held: 0, ..m },
            Seq::empty(),
        ),
        _ => (m, Seq::empty()),
    }
}

/// What a drag recogniser makes of an event.
pub open spec fn drag_fed(fl: Unit, m: RecognizerModel, e: InputModel, hit: bool, min_distance: u32) -> (
    RecognizerModel,
    Seq<GestureEvent>,
) {
    match e {
        InputModel::PointerDown { x, y, button: PointerButton::Left } => if hit {
            (
                RecognizerModel {
                    press_origin: (x, y),
                    cursor: (x, y),
                    moved_by: (0, 0),
                    phase: Phase::Pending,
                    ..m
                },
                Seq::empty(),
            )
        } else {
            (m, Seq::empty())
        },
        InputModel::PointerMoved { x, y } => if m.phase == Phase::Idle {
            (m, Seq::empty())
        } else {
            let moved = RecognizerModel {
                cursor: (x, y),
                moved_by: (sub32(fl, x, m.press_origin.0), sub32(fl, y, m.press_origin.1)),
                ..m
            };
            if m.phase == Phase::Active || le32(min_distance, distance(fl, (x, y), m.press_origin)) {
                (RecognizerModel { phase: Phase::Active, ..moved }, seq![GestureEvent::Changed])
            } else {
                (moved, Seq::empty())
            }
        },
        InputModel::PointerUp { x, y, .. } => if m.phase == Phase::Active {
            (
                RecognizerModel {
                    moved_by: (sub32(fl, x, m.press_origin.0), sub32(fl, y, m.press_origin.1)),
                    phase: Phase::Idle,
                    ..m
                },
                seq![GestureEvent::Ended],
            )
        } else {
            (RecognizerModel { phase: Phase::Idle, ..m }, Seq::empty())
        },
        _ => (m, Seq::empty()),
    }
}

/// What a pinch recogniser makes of an event.
pub open spec fn magnify_fed(fl: Unit, m: RecognizerModel, e: InputModel) -> (
    RecognizerModel,
    Seq<GestureEvent>,
) {
    match e {
        InputModel::Pinch { delta } => {
            let from = if m.phase == Phase::Active {
                m.magnification
            } else {
                NO_SCALE
            };
            (
                RecognizerModel {
                    phase: Phase::Active,
                    magnification: mul32(fl, from, add32(fl, NO_SCALE, delta)),
                    ..m
                },
                seq![GestureEvent::Changed],
            )
        },
        _ => (m, Seq::empty()),
    }
}

/// What a rotation recogniser makes of an event.
pub open spec fn rotation_fed(fl: Unit, m: RecognizerModel, e: InputModel) -> (
    RecognizerModel,
    Seq<GestureEvent>,
) {
    match e {
        InputModel::Rotate { delta } => {
            let from = if m.phase == Phase::Active {
                m.angle
            } else {
                0
            };
            (
                RecognizerModel { phase: Phase::Active, angle: add32(fl, from, delta), ..m },
                seq![GestureEvent::Changed],
            )
        },
        _ => (m, Seq::empty()),
    }
}

/// What a recogniser makes of an event. A press counts only where it hits the node.
pub open spec fn fed(fl: Unit, m: RecognizerModel, e: InputModel, hit: bool) -> (
    RecognizerModel,
    Seq<GestureEvent>,
) {
    match m.kind {
        GestureKind::Tap { count } => tap_fed(fl, m, e, hit, count),
        GestureKind::LongPress { .. } => long_press_fed(fl, m, e, hit),
        GestureKind::Drag { min_distance } => drag_fed(fl, m, e, hit, min_distance),
        GestureKind::Magnify => magnify_fed(fl, m, e),
        GestureKind::Rotation => rotation_fed(fl, m, e),
    }
}

/// What a recogniser makes of time that passes: a long press is recognised, once, when it was
/// held long enough.
pub open spec fn ticked(fl: Unit, m: RecognizerModel, dt: u32) -> (RecognizerModel, Seq<GestureEvent>) {
    match m.kind {
        GestureKind::LongPress { min_duration } => if m.phase == Phase::Pending && !m.long_fired {
            let held = add32(fl, m.held, dt);
            if le32(min_duration, held) {
                (
                    RecognizerModel { held, long_fired: true, phase: Phase::Idle, ..m },
                    seq![GestureEvent::Recognized],
                )
            } else {
                (RecognizerModel { held, ..m }, Seq::empty())
            }
        } else {
            (m, Seq::empty())
        },
        _ => (m, Seq::empty()),
    }
}

/// A pinch or a rotation brought to its end.
pub open spec fn concluded(m: RecognizerModel) -> (RecognizerModel, Seq<GestureEvent>) {
    if m.phase == Phase::Active && (m.kind is Magnify || m.kind is Rotation) {
        (RecognizerModel { phase: Phase::Idle, ..m }, seq![GestureEvent::Ended])
    } else {
        (m, Seq::empty())
    }
}

/// A recogniser that gave up what it was following.
pub open spec fn cancelled(m: RecognizerModel) -> RecognizerModel {
    RecognizerModel {
        phase: Phase::Idle,
        tap_count: 0,
        held: 0,
        long_fired: false,
        moved_by: (0, 0),
        ..m
    }
}

fn one(e: GestureEvent) -> (r: Vec<GestureEvent>)
    ensures
        r@ == seq![e],
{
    let mut r: Vec<GestureEvent> = Vec::new();
    r.push(e);
    assert(r@ =~= seq![e]);
    r
}

fn none() -> (r: Vec<GestureEvent>)
    ensures
        r@ == Seq::<GestureEvent>::empty(),
{
    let r: Vec<GestureEvent> = Vec::new();
    assert(r@ =~= Seq::empty());
    r
}

fn distance_of<F: Fn(&FloatOp) -> Option<u64>>(a: (u32, u32), b: (u32, u32), fl: &F) -> (r: u32)
    requires
        steady(*fl),
    ensures
        r == distance(unit(*fl), a, b),
{
    let dx: u32 = difference(fl, a.0, b.0);
    let dy: u32 = difference(fl, a.1, b.1);
    single(fl, &FloatOp::SqrtSingle { x: sum(fl, product(fl, dx, dx), product(fl, dy, dy)) })
}

impl Recognizer {
    /// A recogniser of `kind` on `node` that fires `action`.
    pub fn new(node: NodeId, action: &str, kind: GestureKind) -> (r: Recognizer)
        ensures
            r@ == fresh(node, action@, kind),
            counting(r@),
    {
        Recognizer {
            node,
            action: copy(action),
            kind,
            phase: Phase::Idle,
            press_origin: (0, 0),
            cursor: (0, 0),
            held: 0,
            tap_count: 0,
            moved_by: (0, 0),
            magnification: NO_SCALE,
            angle: 0,
            long_fired: false,
        }
    }

    /// How far the drag is from where it began; nothing where no drag is under way.
    pub fn translation(&self) -> (r: (u32, u32))
        ensures
            r == if self@.phase is Active {
                self@.moved_by
            } else {
                (0, 0)
            },
    {
        match self.phase {
            Phase::Active => self.moved_by,
            _ => (0, 0),
        }
    }

    /// The magnification so far.
    pub fn scale(&self) -> (r: u32)
        ensures
            r == self@.magnification,
    {
        self.magnification
    }

    /// The angle so far, in radians.
    pub fn rotation(&self) -> (r: u32)
        ensures
            r == self@.angle,
    {
        self.angle
    }

    /// `true` exactly while a drag, a pinch or a rotation goes on.
    pub fn is_active(&self) -> (r: bool)
        ensures
            r == (self@.phase == Phase::Active),
    {
        self.phase == Phase::Active
    }

    /// `true` exactly while a press is being followed.
    pub fn is_tracking(&self) -> (r: bool)
        ensures
            r == (self@.phase != Phase::Idle),
    {
        self.phase != Phase::Idle
    }

    fn within_slop<F: Fn(&FloatOp) -> Option<u64>>(&self, point: (u32, u32), fl: &F) -> (r: bool)
        requires
            steady(*fl),
        ensures
            r == in_place(unit(*fl), self@, point),
    {
        at_most_single(distance_of(point, self.press_origin, fl), TAP_SLOP)
    }

    /// Takes one event in and reports what came of it.
    pub fn feed<F: Fn(&FloatOp) -> Option<u64>>(&mut self, input: &InputEvent, hit: bool, fl: &F) -> (r: Vec<
        GestureEvent,
    >)
        requires
            steady(*fl),
            counting(old(self)@),
        ensures
            (final(self)@, r@) == fed(unit(*fl), old(self)@, input@, hit),
            counting(final(self)@),
    {
        match self.kind {
            GestureKind::Tap { count } => self.feed_tap(input, hit, count, fl),
            GestureKind::LongPress { .. } => self.feed_longpress(input, hit, fl),
            GestureKind::Drag { min_distance } => self.feed_drag(input, hit, min_distance, fl),
            GestureKind::Magnify => self.feed_magnify(input, fl),
            GestureKind::Rotation => self.feed_rotation(input, fl),
        }
    }

    fn feed_tap<F: Fn(&FloatOp) -> Option<u64>>(
        &mut self,
        input: &InputEvent,
        hit: bool,
        count: u32,
        fl: &F,
    ) -> (r: Vec<GestureEvent>)
        requires
            steady(*fl),
            counting(old(self)@),
        ensures
            (final(self)@, r@) == tap_fed(unit(*fl), old(self)@, input@, hit, count),
            counting(final(self)@),
    {
        match input {
            InputEvent::PointerDown { x, y, button: PointerButton::Left } => {
                if hit {
                    self.press_origin = (*x, *y);
                    self.cursor = (*x, *y);
                    self.phase = Phase::Pending;
                }
                none()
            },
            InputEvent::PointerMoved { x, y } => {
                if self.phase == Phase::Pending && !self.within_slop((*x, *y), fl) {
                    self.phase = Phase::Idle;
                    self.tap_count = 0;
                }
                self.cursor = (*x, *y);
                none()
            },
            InputEvent::PointerUp { x, y, button: PointerButton::Left } => {
                if self.phase == Phase::Pending && self.within_slop((*x, *y), fl) {
                    let taps: u32 = self.tap_count + 1;
                    self.phase = Phase::Idle;
                    if taps >= count {
                        self.tap_count = 0;
                        return one(GestureEvent::Recognized);
                    }
                    self.tap_count = taps;
                } else {
                    self.phase = Phase::Idle;
                    self.tap_count = 0;
                }
                none()
            },
            _ => none(),
        }
    }

    fn feed_longpress<F: Fn(&FloatOp) -> Option<u64>>(&mut self, input: &InputEvent, hit: bool, fl: &F) -> (r:
        Vec<GestureEvent>)
        requires
            steady(*fl),
            counting(old(self)@),
        ensures
            (final(self)@, r@) == long_press_fed(unit(*fl), old(self)@, input@, hit),
            counting(final(self)@),
    {
        match input {
            InputEvent::PointerDown { x, y, button: PointerButton::Left } => {
                if hit {
                    self.press_origin = (*x, *y);
                    self.cursor = (*x, *y);
                    self.held = 0;
                    self.long_fired = false;
                    self.phase = Phase::Pending;
                }
                none()
            },
            InputEvent::PointerMoved { x, y } => {
                if self.phase == Phase::Pending && !self.within_slop((*x, *y), fl) {
                    self.phase = Phase::Idle;
                }
                self.cursor = (*x, *y);
                none()
            },
            InputEvent::PointerUp { .. } => {
                self.phase = Phase::Idle;
                self.held = 0;
                none()
            },
            _ => none(),
        }
    }

    fn feed_drag<F: Fn(&FloatOp) -> Option<u64>>(
        &mut self,
        input: &InputEvent,
        hit: bool,
        min_distance: u32,
        fl: &F,
    ) -> (r: Vec<GestureEvent>)
        requires
            steady(*fl),
            counting(old(self)@),
        ensures
            (final(self)@, r@) == drag_fed(unit(*fl), old(self)@, input@, hit, min_distance),
            counting(final(self)@),
    {
        match input {
            InputEvent::PointerDown { x, y, button: PointerButton::Left } => {
                if hit {
                    self.press_origin = (*x, *y);
                    self.cursor = (*x, *y);
                    self.moved_by = (0, 0);
                    self.phase = Phase::Pending;
                }
                none()
            },
            InputEvent::PointerMoved { x, y } => {
                if self.phase == Phase::Idle {
                    return none();
                }
                self.cursor = (*x, *y);
                let dx: u32 = difference(fl, *x, self.press_origin.0);
                let dy: u32 = difference(fl, *y, self.press_origin.1);
                self.moved_by = (dx, dy);
                if self.phase == Phase::Active || at_most_single(
                    min_distance,
                    distance_of((*x, *y), self.press_origin, fl),
                ) {
                    self.phase = Phase::Active;
                    one(GestureEvent::Changed)
                } else {
                    none()
                }
            },
            InputEvent::PointerUp { x, y, .. } => {
                if self.phase == Phase::Active {
                    let dx: u32 = difference(fl, *x, self.press_origin.0);
                    let dy: u32 = difference(fl, *y, self.press_origin.1);
                    self.moved_by = (dx, dy);
                    self.phase = Phase::Idle;
                    one(GestureEvent::Ended)
                } else {
                    self.phase = Phase::Idle;
                    none()
                }
            },
            _ => none(),
        }
    }

    fn feed_magnify<F: Fn(&FloatOp) -> Option<u64>>(&mut self, input: &InputEvent, fl: &F) -> (r: Vec<
        GestureEvent,
    >)
        requires
            steady(*fl),
            counting(old(self)@),
        ensures
            (final(self)@, r@) == magnify_fed(unit(*fl), old(self)@, input@),
            counting(final(self)@),
    {
        match input {
            InputEvent::Pinch { delta } => {
                if self.phase != Phase::Active {
                    self.phase = Phase::Active;
                    self.magnification = NO_SCALE;
                }
                let by: u32 = sum(fl, NO_SCALE, *delta);
                self.magnification = product(fl, self.magnification, by);
                one(GestureEvent::Changed)
            },
            _ => none(),
        }
    }

    fn feed_rotation<F: Fn(&FloatOp) -> Option<u64>>(&mut self, input: &InputEvent, fl: &F) -> (r: Vec<
        GestureEvent,
    >)
        requires
            steady(*fl),
            counting(old(self)@),
        ensures
            (final(self)@, r@) == rotation_fed(unit(*fl), old(self)@, input@),
            counting(final(self)@),
    {
        match input {
            InputEvent::Rotate { delta } => {
                if self.phase != Phase::Active {
                    self.phase = Phase::Active;
                    self.angle = 0;
                }
                self.angle = sum(fl, self.angle, *delta);
                one(GestureEvent::Changed)
            },
            _ => none(),
        }
    }

    /// Lets `dt` seconds pass and reports what came of it.
    pub fn tick<F: Fn(&FloatOp) -> Option<u64>>(&mut self, dt: u32, fl: &F) -> (r: Vec<GestureEvent>)
        requires
            steady(*fl),
            counting(old(self)@),
        ensures
            (final(self)@, r@) == ticked(unit(*fl), old(self)@, dt),
            counting(final(self)@),
    {
        match self.kind {
            GestureKind::LongPress { min_duration } => {
                if self.phase == Phase::Pending && !self.long_fired {
                    self.held = sum(fl, self.held, dt);
                    if at_most_single(min_duration, self.held) {
                        self.long_fired = true;
                        self.phase = Phase::Idle;
                        return one(GestureEvent::Recognized);
                    }
                }
                none()
            },
            _ => none(),
        }
    }

    /// Brings a pinch or a rotation that goes on to its end.
    pub fn end_continuous(&mut self) -> (r: Vec<GestureEvent>)
        requires
            counting(old(self)@),
        ensures
            (final(self)@, r@) == concluded(old(self)@),
            counting(final(self)@),
    {
        let continuous = match self.kind {
            GestureKind::Magnify => true,
            GestureKind::Rotation => true,
            _ => false,
        };
        if self.phase == Phase::Active && continuous {
            self.phase = Phase::Idle;
            one(GestureEvent::Ended)
        } else {
            none()
        }
    }

    /// Gives up what is being followed, without a word.
    pub fn cancel(&mut self)
        ensures
            final(self)@ == cancelled(old(self)@),
            counting(final(self)@),
    {
        self.phase = Phase::Idle;
        self.tap_count = 0;
        self.held = 0;
        self.long_fired = false;
        self.moved_by = (0, 0);
    }
}

/// The name of the event that a gesture fires.
pub open spec fn gesture_event_name(action: Seq<char>, e: GestureEvent) -> Seq<char> {
    match e {
        GestureEvent::Recognized => action,
        GestureEvent::Changed => action + "_changed"@,
        GestureEvent::Ended => action + "_ended"@,
    }
}

/// The name of the event that a gesture fires: its action, with what became of it behind where
/// it goes on or ends.
pub fn event_name(action: &str, e: &GestureEvent) -> (r: String)
    ensures
        r@ == gesture_event_name(action@, *e),
{
    match e {
        GestureEvent::Recognized => copy(action),
        GestureEvent::Changed => join(action, "_changed"),
        GestureEvent::Ended => join(action, "_ended"),
    }
}

/// A press that misses leaves every recogniser as it was and reports nothing.
pub proof fn law_missed_press_is_ignored(fl: Unit, m: RecognizerModel, x: u32, y: u32, button: PointerButton)
    ensures
        fed(fl, m, InputModel::PointerDown { x, y, button }, false) == (m, Seq::<GestureEvent>::empty()),
{
}

/// After a cancellation a gesture starts from nothing: no press is being followed, no time is
/// counted, and what comes next is what would come to a new recogniser.
pub proof fn law_cancel_starts_over(fl: Unit, m: RecognizerModel, dt: u32)
    ensures
        ticked(fl, cancelled(m), dt) == (cancelled(m), Seq::<GestureEvent>::empty()),
        concluded(cancelled(m)) == (cancelled(m), Seq::<GestureEvent>::empty()),
        cancelled(m).tap_count == fresh(m.node, m.action, m.kind).tap_count,
        cancelled(m).phase == fresh(m.node, m.action, m.kind).phase,
{
}

/// A long press is reported once: after the report time alone brings no other.
pub proof fn law_long_press_once(fl: Unit, m: RecognizerModel, dt: u32, more: u32)
    requires
        ticked(fl, m, dt).1.len() > 0,
    ensures
        ticked(fl, ticked(fl, m, dt).0, more).1 == Seq::<GestureEvent>::empty(),
{
}

} // verus!
