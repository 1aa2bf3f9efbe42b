//! Gestures on the live interface: every recogniser takes the same input in, and what they
//! recognise is fired like a click.
use vstd::prelude::*;

use crate::float::{steady, unit, FloatOp, Unit};
use crate::gesture::{
    cancelled, concluded, event_name, fed, fresh, gesture_event_name, ticked, GestureEvent, GestureKind,
    Phase, Recognizer, RecognizerModel,
};
use crate::input::{InputEvent, InputModel};
use crate::ir::{has_callback, Origin, Tree};
use crate::layout::{Frame, Plan};
use crate::node::{has_id, NodeId};
use crate::runtime::{
    dispatched, engages, handles, lands_on, lemma_dispatch_keeps_callbacks, recognizer_models, same_callbacks, sound, Runtime,
    RuntimeModel,
};
use crate::store::Store;

verus! {

/// Where a pointer event is.
pub open spec fn point_of(input: InputModel) -> Option<(u32, u32)> {
    match input {
        InputModel::PointerDown { x, y, .. } => Some((x, y)),
        InputModel::PointerUp { x, y, .. } => Some((x, y)),
        InputModel::PointerMoved { x, y } => Some((x, y)),
        _ => None,
    }
}

/// An event concerns a recogniser: it is a pointer event, and the pointer is on its node or the
/// recogniser follows a press already.
pub open spec fn concerns(fl: Unit, m: RuntimeModel, input: InputModel, rec: RecognizerModel) -> bool {
    match point_of(input) {
        Some(p) => lands_on(fl, m, p, rec.node) || rec.phase != Phase::Idle,
        None => false,
    }
}

/// What is fired: each event, on the node of its recogniser, under its name.
pub open spec fn named(rec: RecognizerModel, evs: Seq<GestureEvent>) -> Seq<(NodeId, Seq<char>)> {
    evs.map_values(|e: GestureEvent| (rec.node, gesture_event_name(rec.action, e)))
}

/// What the recognisers may do, one by one.
pub type Drive = spec_fn(RecognizerModel) -> (RecognizerModel, Seq<GestureEvent>);

/// The recognisers after each of them was driven.
pub open spec fn driven(d: Drive, s: Seq<RecognizerModel>) -> Seq<RecognizerModel> {
    s.map_values(|rec: RecognizerModel| d(rec).0)
}

/// What the first `k` recognisers fire when they are driven.
pub open spec fn firing(d: Drive, s: Seq<RecognizerModel>, k: int) -> Seq<(NodeId, Seq<char>)>
    decreases k,
{
    if k <= 0 {
        Seq::empty()
    } else {
        firing(d, s, k - 1) + named(s[k - 1], d(s[k - 1]).1)
    }
}

/// A drag goes on at the node of place `i`.
pub open spec fn drags(s: Seq<RecognizerModel>, i: int) -> bool {
    s[i].kind is Drag && s[i].phase == Phase::Active
}

/// Some drag goes on at the node.
pub open spec fn dragged(s: Seq<RecognizerModel>, node: NodeId) -> bool {
    exists|i: int| 0 <= i < s.len() && #[trigger] drags(s, i) && s[i].node == node
}

/// The recognisers after a drag took precedence: a tap or a long press that is followed on a node
/// where a drag goes on is given up.
pub open spec fn preceded(s: Seq<RecognizerModel>) -> Seq<RecognizerModel> {
    s.map_values(
        |rec: RecognizerModel|
            if (rec.kind is Tap || rec.kind is LongPress) && rec.phase != Phase::Idle && dragged(s, rec.node) {
                cancelled(rec)
            } else {
                rec
            },
    )
}

/// The recognisers after the taps on nodes where something fired were given up.
pub open spec fn untapped(s: Seq<RecognizerModel>, fired: Seq<(NodeId, Seq<char>)>) -> Seq<RecognizerModel> {
    s.map_values(
        |rec: RecognizerModel|
            if rec.kind is Tap && exists|i: int| 0 <= i < fired.len() && (#[trigger] fired[i]).0 == rec.node {
                cancelled(rec)
            } else {
                rec
            },
    )
}

/// The interface goes through the states while the events are fired one after the other, and the
/// answers are whether each was handled.
pub open spec fn fires<E: Fn(&Plan) -> Option<Vec<Frame>>, H: FnOnce(&str, &Store, Origin) -> Option<Store>>(
    e: E,
    h: H,
    fl: Unit,
    events: Seq<(NodeId, Seq<char>)>,
    origin: Origin,
    states: Seq<RuntimeModel>,
    answers: Seq<bool>,
) -> bool {
    &&& states.len() == events.len() + 1
    &&& answers.len() == events.len()
    &&& forall|i: int|
        0 <= i < events.len() ==> dispatched(
            e,
            h,
            fl,
            states[i],
            events[i].0,
            events[i].1,
            origin,
            states[i + 1],
            #[trigger] answers[i],
        )
}

/// What firing the events one after the other may make of the interface; `r` where one of them
/// was handled.
pub open spec fn fired_all<E: Fn(&Plan) -> Option<Vec<Frame>>, H: FnOnce(&str, &Store, Origin) -> Option<Store>>(
    e: E,
    h: H,
    fl: Unit,
    a: RuntimeModel,
    events: Seq<(NodeId, Seq<char>)>,
    origin: Origin,
    b: RuntimeModel,
    r: bool,
) -> bool {
    exists|states: Seq<RuntimeModel>, answers: Seq<bool>| {
        &&& #[trigger] fires(e, h, fl, events, origin, states, answers)
        &&& states[0] == a
        &&& states.last() == b
        &&& r == answers.contains(true)
    }
}

/// The handlers can be asked for the actions of the callbacks that the events reach, in whatever
/// state the earlier ones left. Firing the events asks them for nothing else.
pub open spec fn handles_events<H: FnOnce(&str, &Store, Origin) -> Option<Store>>(
    h: H,
    t: Tree,
    events: Seq<(NodeId, Seq<char>)>,
    origin: Origin,
) -> bool {
    forall|i: int, name: &str, s: &Store|
        0 <= i < events.len() && has_callback(t, events[i].0, events[i].1) && name@
            == t.nodes[events[i].0].callbacks[#[trigger] events[i].1].name ==> #[trigger] call_requires(
            h,
            (name, s, origin),
        )
}

spec fn event_models(s: Seq<(NodeId, String)>) -> Seq<(NodeId, Seq<char>)> {
    s.map_values(|e: (NodeId, String)| (e.0, e.1@))
}

fn add_named(node: NodeId, action: &str, evs: &Vec<GestureEvent>, out: &mut Vec<(NodeId, String)>)
    ensures
        event_models(final(out)@) == event_models(old(out)@) + evs@.map_values(
            |e: GestureEvent| (node, gesture_event_name(action@, e)),
        ),
{
    let ghost start = event_models(out@);
    let ghost all = evs@.map_values(|e: GestureEvent| (node, gesture_event_name(action@, e)));
    let mut i: usize = 0;
    assert(event_models(out@) =~= start + all.take(0));
    while i < evs.len()
        invariant
            i <= evs@.len(),
            all == evs@.map_values(|e: GestureEvent| (node, gesture_event_name(action@, e))),
            event_models(out@) == start + all.take(i as int),
        decreases evs.len() - i,
    {
        let ghost was = out@;
        out.push((node, event_name(action, &evs[i])));
        assert(event_models(out@) =~= event_models(was).push(all[i as int]));
        i += 1;
        assert(event_models(out@) =~= start + all.take(i as int));
    }
    assert(all.take(i as int) =~= all);
}

/// What a pointer event does to the recognisers.
pub open spec fn feeding(fl: Unit, m: RuntimeModel, input: InputModel) -> Drive {
    |rec: RecognizerModel| fed(fl, rec, input, concerns(fl, m, input, rec))
}

/// What `dt` seconds do to the recognisers.
pub open spec fn ticking(fl: Unit, dt: u32) -> Drive {
    |rec: RecognizerModel| ticked(fl, rec, dt)
}

/// What the end of pinches and rotations does to the recognisers.
pub open spec fn ending() -> Drive {
    |rec: RecognizerModel| concluded(rec)
}

/// The interface after every recogniser took an event in, before what they recognised is fired.
pub open spec fn after_feeding(fl: Unit, m: RuntimeModel, input: InputModel) -> RuntimeModel {
    RuntimeModel { gestures: preceded(driven(feeding(fl, m, input), m.gestures)), ..m }
}

/// What an event makes the recognisers fire.
pub open spec fn fed_events(fl: Unit, m: RuntimeModel, input: InputModel) -> Seq<(NodeId, Seq<char>)> {
    firing(feeding(fl, m, input), m.gestures, m.gestures.len() as int)
}

/// What `dt` seconds make the recognisers fire.
pub open spec fn ticked_events(fl: Unit, m: RuntimeModel, dt: u32) -> Seq<(NodeId, Seq<char>)> {
    firing(ticking(fl, dt), m.gestures, m.gestures.len() as int)
}

/// The interface after `dt` seconds passed for every recogniser, before what they recognised is
/// fired.
pub open spec fn after_ticking(fl: Unit, m: RuntimeModel, dt: u32) -> RuntimeModel {
    RuntimeModel {
        gestures: untapped(driven(ticking(fl, dt), m.gestures), ticked_events(fl, m, dt)),
        ..m
    }
}

/// What the end of pinches and rotations makes the recognisers fire.
pub open spec fn ended_events(m: RuntimeModel) -> Seq<(NodeId, Seq<char>)> {
    firing(ending(), m.gestures, m.gestures.len() as int)
}

/// The interface after pinches and rotations came to their end, before that is fired.
pub open spec fn after_ending(m: RuntimeModel) -> RuntimeModel {
    RuntimeModel { gestures: driven(ending(), m.gestures), ..m }
}

impl Runtime {
    /// Puts a recogniser on a node and says at which place it stands. It fires `action`, or that
    /// with what became of it behind, where the gesture goes on or ends.
    pub fn add_gesture(&mut self, node: NodeId, action: &str, kind: GestureKind) -> (r: usize)
        requires
            sound(old(self)@),
        ensures
            r == old(self)@.gestures.len(),
            final(self)@ == (RuntimeModel {
                gestures: old(self)@.gestures.push(fresh(node, action@, kind)),
                ..old(self)@
            }),
            sound(final(self)@),
    {
        let ghost was = self.gestures@;
        let n: usize = self.gestures.len();
        self.gestures.push(Recognizer::new(node, action, kind));
        assert(recognizer_models(self.gestures@) =~= recognizer_models(was).push(fresh(node, action@, kind)));
        n
    }

    /// The recogniser at a place.
    pub fn gesture(&self, idx: usize) -> (r: Option<&Recognizer>)
        ensures
            match r {
                Some(rec) => idx < self@.gestures.len() && rec@ == self@.gestures[idx as int],
                None => idx >= self@.gestures.len(),
            },
    {
        if idx < self.gestures.len() {
            Some(&self.gestures[idx])
        } else {
            None
        }
    }

    /// How many recognisers there are.
    pub fn gesture_count(&self) -> (r: usize)
        ensures
            r == self@.gestures.len(),
    {
        self.gestures.len()
    }

    fn fire_gesture_events<
        F: Fn(&FloatOp) -> Option<u64>,
        E: Fn(&Plan) -> Option<Vec<Frame>>,
        H: Fn(&str, &Store, Origin) -> Option<Store>,
    >(&mut self, events: &Vec<(NodeId, String)>, origin: Origin, fl: &F, engine: &E, handlers: &H) -> (r: bool)
        requires
            sound(old(self)@),
            steady(*fl),
            engages(*engine),
            handles_events(*handlers, old(self)@.doc.tree, event_models(events@), origin),
        ensures
            fired_all(
                *engine,
                *handlers,
                unit(*fl),
                old(self)@,
                event_models(events@),
                origin,
                final(self)@,
                r,
            ),
            sound(final(self)@),
    {
        let ghost a = self@;
        let ghost all = event_models(events@);
        let ghost mut states: Seq<RuntimeModel> = seq![a];
        let ghost mut answers: Seq<bool> = Seq::empty();
        let mut any = false;
        let mut i: usize = 0;
        while i < events.len()
            invariant
                sound(self@),
                steady(*fl),
                engages(*engine),
                handles_events(*handlers, a.doc.tree, all, origin),
                same_callbacks(a.doc.tree, self@.doc.tree),
                all == event_models(events@),
                i <= events@.len(),
                fires(*engine, *handlers, unit(*fl), all.take(i as int), origin, states, answers),
                states[0] == a,
                states.last() == self@,
                any == answers.contains(true),
            decreases events.len() - i,
        {
            let ghost was = answers;
            let ghost here = self@;
            assert(all[i as int] == (events@[i as int].0, events@[i as int].1@));
            assert(handles(*handlers, here, all[i as int].0, all[i as int].1, origin));
            let now = self.invoke(events[i].0, events[i].1.as_str(), origin, fl, engine, handlers);
            proof {
                lemma_dispatch_keeps_callbacks(
                    *engine,
                    *handlers,
                    unit(*fl),
                    here,
                    all[i as int].0,
                    all[i as int].1,
                    origin,
                    self@,
                    now,
                );
                let before = states;
                states = states.push(self@);
                answers = answers.push(now);
                assert(all.take(i + 1) =~= all.take(i as int).push(all[i as int]));
                assert forall|j: int| 0 <= j < i + 1 implies dispatched(
                    *engine,
                    *handlers,
                    unit(*fl),
                    states[j],
                    all.take(i + 1)[j].0,
                    all.take(i + 1)[j].1,
                    origin,
                    states[j + 1],
                    #[trigger] answers[j],
                ) by {
                    if j < i {
                        assert(was[j] == answers[j]);
                        assert(all.take(i as int)[j] == all.take(i + 1)[j]);
                    }
                }
                assert(fires(*engine, *handlers, unit(*fl), all.take(i + 1), origin, states, answers));
                assert(answers.contains(true) == (was.contains(true) || now)) by {
                    if was.contains(true) {
                        let k = choose|k: int| 0 <= k < was.len() && was[k] == true;
                        assert(answers[k] == true);
                    }
                    if now {
                        assert(answers[was.len() as int] == true);
                    }
                    if answers.contains(true) {
                        let k = choose|k: int| 0 <= k < answers.len() && answers[k] == true;
                        if k < was.len() {
                            assert(was[k] == true);
                        }
                    }
                }
            }
            if now {
                any = true;
            }
            i += 1;
        }
        assert(all.take(i as int) =~= all);
        any
    }

    fn feed_all<F: Fn(&FloatOp) -> Option<u64>>(&mut self, input: &InputEvent, fl: &F) -> (r: Vec<(NodeId, String)>)
        requires
            sound(old(self)@),
            steady(*fl),
        ensures
            event_models(r@) == fed_events(unit(*fl), old(self)@, input@),
            final(self)@ == (RuntimeModel {
                gestures: driven(feeding(unit(*fl), old(self)@, input@), old(self)@.gestures),
                ..old(self)@
            }),
            sound(final(self)@),
    {
        let ghost m = self@;
        let ghost u = unit(*fl);
        let ghost d = feeding(u, m, input@);
        let point = match input {
            InputEvent::PointerDown { x, y, .. } => Some((*x, *y)),
            InputEvent::PointerUp { x, y, .. } => Some((*x, *y)),
            InputEvent::PointerMoved { x, y } => Some((*x, *y)),
            _ => None,
        };
        assert(point == point_of(input@));
        let n: usize = self.gestures.len();
        let mut fired: Vec<(NodeId, String)> = Vec::new();
        let mut i: usize = 0;
        assert(event_models(fired@) =~= Seq::empty());
        assert(driven(d, m.gestures.take(0)) + m.gestures.skip(0) =~= m.gestures);
        while i < n
            invariant
                i <= n,
                n == m.gestures.len(),
                steady(*fl),
                u == unit(*fl),
                d == feeding(u, m, input@),
                point == point_of(input@),
                sound(m),
                sound(self@),
                self@ == (RuntimeModel { gestures: self@.gestures, ..m }),
                self@.gestures == driven(d, m.gestures.take(i as int)) + m.gestures.skip(i as int),
                event_models(fired@) == firing(d, m.gestures, i as int),
            decreases n - i,
        {
            let ghost was = self@;
            assert(recognizer_models(self.gestures@).len() == self.gestures@.len());
            assert(was.gestures[i as int] == m.gestures[i as int]);
            assert(self.gestures@[i as int]@ == m.gestures[i as int]);
            let hit = match point {
                Some(p) => self.point_hits_node(p, self.gestures[i].node, fl) || self.gestures[i].is_tracking(),
                None => false,
            };
            assert(hit == concerns(u, m, input@, m.gestures[i as int]));
            let evs = self.gestures[i].feed(input, hit, fl);
            assert(self@.gestures =~= was.gestures.update(i as int, d(m.gestures[i as int]).0));
            let ghost sofar = fired@;
            add_named(self.gestures[i].node, self.gestures[i].action.as_str(), &evs, &mut fired);
            proof {
                lemma_fed_keeps(u, m.gestures[i as int], input@, hit);
                assert(event_models(fired@) == event_models(sofar) + named(m.gestures[i as int], evs@));
                assert(m.gestures.take(i + 1) =~= m.gestures.take(i as int).push(m.gestures[i as int]));
                assert(self@.gestures =~= driven(d, m.gestures.take(i + 1)) + m.gestures.skip(i + 1));
            }
            i += 1;
        }
        assert(m.gestures.take(i as int) =~= m.gestures);
        assert(self@.gestures =~= driven(d, m.gestures));
        fired
    }

    fn apply_drag_precedence(&mut self)
        requires
            sound(old(self)@),
        ensures
            final(self)@ == (RuntimeModel { gestures: preceded(old(self)@.gestures), ..old(self)@ }),
            sound(final(self)@),
    {
        let ghost m = self@;
        let ghost s = m.gestures;
        let n: usize = self.gestures.len();
        let mut dragging: Vec<NodeId> = Vec::new();
        let mut i: usize = 0;
        while i < n
            invariant
                *self == *old(self),
                m == self@,
                s == m.gestures,
                n == s.len(),
                i <= n,
                forall|node: NodeId| #[trigger]
                    dragging@.contains(node) <==> exists|j: int| 0 <= j < i && #[trigger] drags(s, j) && s[j].node == node,
            decreases n - i,
        {
            let rec = &self.gestures[i];
            assert(s[i as int] == rec@);
            let is_drag = match rec.kind {
                GestureKind::Drag { .. } => true,
                _ => false,
            };
            let ghost was = dragging@;
            if is_drag && rec.is_active() {
                assert(drags(s, i as int));
                dragging.push(rec.node);
                assert forall|node: NodeId| #[trigger] dragging@.contains(node) <==> exists|j: int|
                    0 <= j < i + 1 && #[trigger] drags(s, j) && s[j].node == node by {
                    if dragging@.contains(node) {
                        let k = choose|k: int| 0 <= k < dragging@.len() && dragging@[k] == node;
                        if k < was.len() {
                            assert(was[k] == node);
                            assert(was.contains(node));
                        } else {
                            assert(drags(s, i as int) && s[i as int].node == node);
                        }
                    }
                    if exists|j: int| 0 <= j < i + 1 && #[trigger] drags(s, j) && s[j].node == node {
                        let j = choose|j: int| 0 <= j < i + 1 && #[trigger] drags(s, j) && s[j].node == node;
                        if j < i {
                            assert(was.contains(node));
                            let k = choose|k: int| 0 <= k < was.len() && was[k] == node;
                            assert(dragging@[k] == node);
                        } else {
                            assert(dragging@[was.len() as int] == node);
                        }
                    }
                }
            } else {
                assert(!drags(s, i as int));
            }
            i += 1;
        }
        assert forall|node: NodeId| #[trigger] dragging@.contains(node) == dragged(s, node) by {}
        let mut k: usize = 0;
        assert(preceded_to(s, 0) =~= s);
        while k < n
            invariant
                k <= n,
                n == s.len(),
                sound(m),
                sound(self@),
                s == m.gestures,
                self@ == (RuntimeModel { gestures: preceded_to(s, k as int), ..m }),
                forall|node: NodeId| #[trigger] dragging@.contains(node) == dragged(s, node),
            decreases n - k,
        {
            let ghost was = self@;
            assert(recognizer_models(self.gestures@).len() == self.gestures@.len());
            assert(was.gestures[k as int] == s[k as int]);
            assert(self.gestures@[k as int]@ == s[k as int]);
            let cancelable = match self.gestures[k].kind {
                GestureKind::Tap { .. } => true,
                GestureKind::LongPress { .. } => true,
                _ => false,
            };
            if cancelable && self.gestures[k].is_tracking() && has_id(&dragging, self.gestures[k].node) {
                self.gestures[k].cancel();
                assert(self@.gestures =~= was.gestures.update(k as int, cancelled(s[k as int])));
            }
            assert(self@.gestures =~= preceded_to(s, k + 1));
            k += 1;
        }
        assert(preceded_to(s, n as int) =~= preceded(s));
    }

    /// Gives one event to every recogniser, settles drags against taps and long presses on the
    /// same node, and fires what was recognised on behalf of `origin`. `true` exactly when
    /// something that was fired was handled.
    pub fn feed_gesture<
        F: Fn(&FloatOp) -> Option<u64>,
        E: Fn(&Plan) -> Option<Vec<Frame>>,
        H: Fn(&str, &Store, Origin) -> Option<Store>,
    >(&mut self, input: &InputEvent, origin: Origin, fl: &F, engine: &E, handlers: &H) -> (r: bool)
        requires
            sound(old(self)@),
            steady(*fl),
            engages(*engine),
            handles_events(*handlers, old(self)@.doc.tree, fed_events(unit(*fl), old(self)@, input@), origin),
        ensures
            fired_all(
                *engine,
                *handlers,
                unit(*fl),
                after_feeding(unit(*fl), old(self)@, input@),
                fed_events(unit(*fl), old(self)@, input@),
                origin,
                final(self)@,
                r,
            ),
            sound(final(self)@),
    {
        let fired = self.feed_all(input, fl);
        self.apply_drag_precedence();
        self.fire_gesture_events(&fired, origin, fl, engine, handlers)
    }

    /// Lets `dt` seconds pass for every recogniser and fires what came of it on behalf of
    /// `origin`. A tap that is followed on a node where a long press fires is given up.
    pub fn tick_gestures<
        F: Fn(&FloatOp) -> Option<u64>,
        E: Fn(&Plan) -> Option<Vec<Frame>>,
        H: Fn(&str, &Store, Origin) -> Option<Store>,
    >(&mut self, dt: u32, origin: Origin, fl: &F, engine: &E, handlers: &H) -> (r: bool)
        requires
            sound(old(self)@),
            steady(*fl),
            engages(*engine),
            handles_events(*handlers, old(self)@.doc.tree, ticked_events(unit(*fl), old(self)@, dt), origin),
        ensures
            fired_all(
                *engine,
                *handlers,
                unit(*fl),
                after_ticking(unit(*fl), old(self)@, dt),
                ticked_events(unit(*fl), old(self)@, dt),
                origin,
                final(self)@,
                r,
            ),
            sound(final(self)@),
    {
        let ghost m = self@;
        let ghost u = unit(*fl);
        let ghost d = ticking(u, dt);
        let n: usize = self.gestures.len();
        let mut fired: Vec<(NodeId, String)> = Vec::new();
        let mut i: usize = 0;
        assert(event_models(fired@) =~= Seq::empty());
        assert(driven(d, m.gestures.take(0)) + m.gestures.skip(0) =~= m.gestures);
        while i < n
            invariant
                i <= n,
                n == m.gestures.len(),
                steady(*fl),
                u == unit(*fl),
                d == ticking(u, dt),
                sound(m),
                sound(self@),
                self@ == (RuntimeModel { gestures: self@.gestures, ..m }),
                self@.gestures == driven(d, m.gestures.take(i as int)) + m.gestures.skip(i as int),
                event_models(fired@) == firing(d, m.gestures, i as int),
            decreases n - i,
        {
            let ghost was = self@;
            assert(recognizer_models(self.gestures@).len() == self.gestures@.len());
            assert(was.gestures[i as int] == m.gestures[i as int]);
            assert(self.gestures@[i as int]@ == m.gestures[i as int]);
            let evs = self.gestures[i].tick(dt, fl);
            assert(self@.gestures =~= was.gestures.update(i as int, d(m.gestures[i as int]).0));
            add_named(self.gestures[i].node, self.gestures[i].action.as_str(), &evs, &mut fired);
            proof {
                assert(m.gestures.take(i + 1) =~= m.gestures.take(i as int).push(m.gestures[i as int]));
                assert(self@.gestures =~= driven(d, m.gestures.take(i + 1)) + m.gestures.skip(i + 1));
            }
            i += 1;
        }
        assert(m.gestures.take(i as int) =~= m.gestures);
        assert(self@.gestures =~= driven(d, m.gestures));
        self.cancel_taps(&fired);
        self.fire_gesture_events(&fired, origin, fl, engine, handlers)
    }

    fn cancel_taps(&mut self, fired: &Vec<(NodeId, String)>)
        requires
            sound(old(self)@),
        ensures
            final(self)@ == (RuntimeModel {
                gestures: untapped(old(self)@.gestures, event_models(fired@)),
                ..old(self)@
            }),
            sound(final(self)@),
    {
        let ghost m = self@;
        let ghost s = m.gestures;
        let ghost ev = event_models(fired@);
        let n: usize = self.gestures.len();
        let mut k: usize = 0;
        assert(untapped_to(s, ev, 0) =~= s);
        while k < n
            invariant
                k <= n,
                n == s.len(),
                sound(m),
                sound(self@),
                s == m.gestures,
                ev == event_models(fired@),
                self@ == (RuntimeModel { gestures: untapped_to(s, ev, k as int), ..m }),
            decreases n - k,
        {
            let ghost was = self@;
            assert(recognizer_models(self.gestures@).len() == self.gestures@.len());
            assert(was.gestures[k as int] == s[k as int]);
            assert(self.gestures@[k as int]@ == s[k as int]);
            let is_tap = match self.gestures[k].kind {
                GestureKind::Tap { .. } => true,
                _ => false,
            };
            if is_tap && fired_on(fired, self.gestures[k].node) {
                self.gestures[k].cancel();
                assert(self@.gestures =~= was.gestures.update(k as int, cancelled(s[k as int])));
            }
            assert(self@.gestures =~= untapped_to(s, ev, k + 1));
            k += 1;
        }
        assert(untapped_to(s, ev, n as int) =~= untapped(s, ev));
    }

    /// Feeds a step of a pinch.
    pub fn pinch<
        F: Fn(&FloatOp) -> Option<u64>,
        E: Fn(&Plan) -> Option<Vec<Frame>>,
        H: Fn(&str, &Store, Origin) -> Option<Store>,
    >(&mut self, delta: u32, origin: Origin, fl: &F, engine: &E, handlers: &H) -> (r: bool)
        requires
            sound(old(self)@),
            steady(*fl),
            engages(*engine),
            handles_events(
                *handlers,
                old(self)@.doc.tree,
                fed_events(unit(*fl), old(self)@, InputModel::Pinch { delta }),
                origin,
            ),
        ensures
            fired_all(
                *engine,
                *handlers,
                unit(*fl),
                after_feeding(unit(*fl), old(self)@, InputModel::Pinch { delta }),
                fed_events(unit(*fl), old(self)@, InputModel::Pinch { delta }),
                origin,
                final(self)@,
                r,
            ),
            sound(final(self)@),
    {
        self.feed_gesture(&InputEvent::Pinch { delta }, origin, fl, engine, handlers)
    }

    /// Feeds a step of a rotation.
    pub fn rotate<
        F: Fn(&FloatOp) -> Option<u64>,
        E: Fn(&Plan) -> Option<Vec<Frame>>,
        H: Fn(&str, &Store, Origin) -> Option<Store>,
    >(&mut self, delta: u32, origin: Origin, fl: &F, engine: &E, handlers: &H) -> (r: bool)
        requires
            sound(old(self)@),
            steady(*fl),
            engages(*engine),
            handles_events(
                *handlers,
                old(self)@.doc.tree,
                fed_events(unit(*fl), old(self)@, InputModel::Rotate { delta }),
                origin,
            ),
        ensures
            fired_all(
                *engine,
                *handlers,
                unit(*fl),
                after_feeding(unit(*fl), old(self)@, InputModel::Rotate { delta }),
                fed_events(unit(*fl), old(self)@, InputModel::Rotate { delta }),
                origin,
                final(self)@,
                r,
            ),
            sound(final(self)@),
    {
        self.feed_gesture(&InputEvent::Rotate { delta }, origin, fl, engine, handlers)
    }

    /// Brings every pinch and rotation that goes on to its end and fires that on behalf of
    /// `origin`.
    pub fn end_continuous_gestures<
        F: Fn(&FloatOp) -> Option<u64>,
        E: Fn(&Plan) -> Option<Vec<Frame>>,
        H: Fn(&str, &Store, Origin) -> Option<Store>,
    >(&mut self, origin: Origin, fl: &F, engine: &E, handlers: &H) -> (r: bool)
        requires
            sound(old(self)@),
            steady(*fl),
            engages(*engine),
            handles_events(*handlers, old(self)@.doc.tree, ended_events(old(self)@), origin),
        ensures
            fired_all(
                *engine,
                *handlers,
                unit(*fl),
                after_ending(old(self)@),
                ended_events(old(self)@),
                origin,
                final(self)@,
                r,
            ),
            sound(final(self)@),
    {
        let ghost m = self@;
        let ghost d = ending();
        let n: usize = self.gestures.len();
        let mut fired: Vec<(NodeId, String)> = Vec::new();
        let mut i: usize = 0;
        assert(event_models(fired@) =~= Seq::empty());
        assert(driven(d, m.gestures.take(0)) + m.gestures.skip(0) =~= m.gestures);
        while i < n
            invariant
                i <= n,
                n == m.gestures.len(),
                d == ending(),
                sound(m),
                sound(self@),
                self@ == (RuntimeModel { gestures: self@.gestures, ..m }),
                self@.gestures == driven(d, m.gestures.take(i as int)) + m.gestures.skip(i as int),
                event_models(fired@) == firing(d, m.gestures, i as int),
            decreases n - i,
        {
            let ghost was = self@;
            assert(recognizer_models(self.gestures@).len() == self.gestures@.len());
            assert(was.gestures[i as int] == m.gestures[i as int]);
            assert(self.gestures@[i as int]@ == m.gestures[i as int]);
            let evs = self.gestures[i].end_continuous();
            assert(self@.gestures =~= was.gestures.update(i as int, d(m.gestures[i as int]).0));
            add_named(self.gestures[i].node, self.gestures[i].action.as_str(), &evs, &mut fired);
            proof {
                assert(m.gestures.take(i + 1) =~= m.gestures.take(i as int).push(m.gestures[i as int]));
                assert(self@.gestures =~= driven(d, m.gestures.take(i + 1)) + m.gestures.skip(i + 1));
            }
            i += 1;
        }
        assert(m.gestures.take(i as int) =~= m.gestures);
        assert(self@.gestures =~= driven(d, m.gestures));
        self.fire_gesture_events(&fired, origin, fl, engine, handlers)
    }
}

spec fn preceded_to(s: Seq<RecognizerModel>, k: int) -> Seq<RecognizerModel> {
    Seq::new(
        s.len(),
        |i: int|
            if i < k {
                preceded(s)[i]
            } else {
                s[i]
            },
    )
}

spec fn untapped_to(s: Seq<RecognizerModel>, ev: Seq<(NodeId, Seq<char>)>, k: int) -> Seq<RecognizerModel> {
    Seq::new(
        s.len(),
        |i: int|
            if i < k {
                untapped(s, ev)[i]
            } else {
                s[i]
            },
    )
}

fn fired_on(fired: &Vec<(NodeId, String)>, node: NodeId) -> (r: bool)
    ensures
        r == exists|i: int|
            0 <= i < event_models(fired@).len() && (#[trigger] event_models(fired@)[i]).0 == node,
{
    let ghost ev = event_models(fired@);
    let mut i: usize = 0;
    while i < fired.len()
        invariant
            ev == event_models(fired@),
            i <= fired@.len(),
            forall|j: int| 0 <= j < i ==> (#[trigger] ev[j]).0 != node,
        decreases fired.len() - i,
    {
        assert(ev[i as int].0 == fired@[i as int].0);
        if fired[i].0 == node {
            return true;
        }
        i += 1;
    }
    false
}

/// A recogniser keeps its node and its action.
proof fn lemma_fed_keeps(fl: Unit, rec: RecognizerModel, input: InputModel, hit: bool)
    ensures
        fed(fl, rec, input, hit).0.node == rec.node,
        fed(fl, rec, input, hit).0.action == rec.action,
{
}

} // verus!
