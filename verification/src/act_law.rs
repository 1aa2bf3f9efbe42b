//! What input does to a live interface, and what an interface offers.
use vstd::prelude::*;

use crate::coherence::ancestor;
use crate::float::{FloatQuery, Unit};
use crate::gesture::{concluded, fed, gesture_event_name, ticked, Phase, RecognizerModel};
use crate::gesture_law::{at_most, lemma_at_most, numeric};
use crate::input::{InputModel, PointerButton};
use crate::ir::{has_callback, EditModel, MutationModel, Origin, Tree};
use crate::layout::{inside, ComputedRect, Frame, Plan};
use crate::node::{NodeId, NodeModel};
use crate::place_law::said;
use crate::runtime::{
    answers_at, bubbles, dispatched, focus_ring, handled_by, invoked, lands_on, node_actions, offered,
    reacted, refocused, settled, touches, under, RuntimeModel,
};
use crate::runtime_law::{law_invocation_is_audited, law_no_back_door};
use crate::store::Store;
use crate::text::{in_order, lemma_finite_in_order};
use crate::touch::{
    after_ending, after_feeding, after_ticking, concerns, driven, ended_events, ending, fed_events, feeding, firing,
    named, ticked_events, ticking, Drive,
};
use crate::window::{a11y_node, assistant_target, window_reacted};

verus! {

/// A point is in a rectangle from its corner on, and up to its far edges, along both axes.
pub proof fn law_point_is_inside_between_the_edges(fl: Unit, r: ComputedRect, p: (u32, u32))
    ensures
        ({
            let right = said(fl, FloatQuery::AddSingle { x: r.x, y: r.w });
            let bottom = said(fl, FloatQuery::AddSingle { x: r.y, y: r.h });
            inside(fl, r, p) <==> {
                &&& at_most(r.x, p.0) && numeric(right) && !at_most(right, p.0)
                &&& at_most(r.y, p.1) && numeric(bottom) && !at_most(bottom, p.1)
            }
        }),
{
    lemma_at_most(r.x, p.0);
    lemma_at_most(r.y, p.1);
    lemma_at_most(p.0, said(fl, FloatQuery::AddSingle { x: r.x, y: r.w }));
    lemma_at_most(p.1, said(fl, FloatQuery::AddSingle { x: r.y, y: r.h }));
}

/// The `k`-th node up from `start` is the first that answers an event.
pub open spec fn first_answer(t: Tree, start: NodeId, event: Seq<char>, k: nat, id: NodeId) -> bool {
    &&& ancestor(t, start, k) == Some(id)
    &&& has_callback(t, id, event)
    &&& forall|j: nat|
        j < k ==> !(#[trigger] ancestor(t, start, j) matches Some(x) && has_callback(t, x, event))
}

/// A press with the left button on a node goes to the first node up from there that answers a click:
/// that node gets the focus, the pointer is where it was pressed, and the click is logged as one of
/// a person behind all that was logged before.
pub proof fn law_click_goes_to_the_nearest_answer<
    E: Fn(&Plan) -> Option<Vec<Frame>>,
    H: FnOnce(&str, &Store, Origin) -> Option<Store>,
>(e: E, h: H, fl: Unit, a: RuntimeModel, x: u32, y: u32, b: RuntimeModel, r: bool, start: NodeId, k: nat, id: NodeId)
    requires
        reacted(e, h, fl, a, InputModel::PointerDown { x, y, button: PointerButton::Left }, b, r),
        under(fl, a, (x, y)) == Some(start),
        first_answer(a.doc.tree, start, "click"@, k, id),
    ensures
        b.focused == Some(id),
        b.cursor == (x, y),
        b.doc.log.len() > a.doc.log.len(),
        b.doc.log[a.doc.log.len() as int] == (EditModel {
            origin: Origin::Human,
            mutation: MutationModel::Invoke { id, event: "click"@ },
        }),
{
    let at = RuntimeModel { cursor: (x, y), ..a };
    let t = a.doc.tree;
    assert(answers_at(t, start, "click"@, k));
    assert forall|j: nat| j < k implies !#[trigger] answers_at(t, start, "click"@, j) by {
        assert(!(ancestor(t, start, j) matches Some(x) && has_callback(t, x, "click"@)));
    }
    assert(!handled_by(fl, at, (x, y), "click"@, None));
    let target = choose|target: NodeId| {
        &&& #[trigger] handled_by(fl, at, (x, y), "click"@, Some(target))
        &&& dispatched(
            e,
            h,
            fl,
            (RuntimeModel { focused: Some(target), ..at }),
            target,
            "click"@,
            Origin::Human,
            b,
            r,
        )
    };
    assert(bubbles(t, start, "click"@, Some(target)));
    let m = choose|m: nat| {
        &&& #[trigger] answers_at(t, start, "click"@, m)
        &&& ancestor(t, start, m) == Some(target)
        &&& forall|j: nat| j < m ==> !#[trigger] answers_at(t, start, "click"@, j)
    };
    assert(m == k);
    assert(target == id);
    let from = RuntimeModel { focused: Some(id), ..at };
    law_dispatch_logs(e, h, fl, from, id, "click"@, Origin::Human, b, r);
}

/// Firing an event that a node answers logs it, whoever fires it, and leaves focus and pointer where
/// they were.
pub proof fn law_dispatch_logs<
    E: Fn(&Plan) -> Option<Vec<Frame>>,
    H: FnOnce(&str, &Store, Origin) -> Option<Store>,
>(e: E, h: H, fl: Unit, a: RuntimeModel, id: NodeId, event: Seq<char>, origin: Origin, b: RuntimeModel, r: bool)
    requires
        dispatched(e, h, fl, a, id, event, origin, b, r),
        has_callback(a.doc.tree, id, event),
    ensures
        b.focused == a.focused,
        b.cursor == a.cursor,
        b.doc.log.len() > a.doc.log.len(),
        b.doc.log[a.doc.log.len() as int] == (EditModel {
            origin,
            mutation: MutationModel::Invoke { id, event },
        }),
        forall|i: int| 0 <= i < a.doc.log.len() ==> b.doc.log[i] == #[trigger] a.doc.log[i],
{
    law_invocation_is_audited(a, id, event, origin);
    let f = invoked(a, id, event, origin);
    let logged = a.doc.log.push(EditModel { origin, mutation: MutationModel::Invoke { id, event } });
    assert(f.doc.log == logged && logged.len() == a.doc.log.len() + 1);
    let (name, s, out) = choose|name: &str, s: &Store, out: Option<Store>| #[trigger]
        call_ensures(h, (name, s, origin), out) && name@ == a.doc.tree.nodes[id].callbacks[event].name && s@
            == a.state && s.ticks() == a.ticks && r == (out is Some) && match out {
            Some(t) => settled(e, fl, (RuntimeModel { state: t@, ticks: t.ticks(), ..f }), b),
            None => b == f,
        };
    assert(r || b == f);
    law_no_back_door(e, h, fl, a, id, event, origin, b, r);
    assert(b.doc.log.take(logged.len() as int) == logged);
    assert(logged[a.doc.log.len() as int] == b.doc.log[a.doc.log.len() as int]);
    assert forall|i: int| 0 <= i < a.doc.log.len() implies b.doc.log[i] == #[trigger] a.doc.log[i] by {
        assert(logged[i] == b.doc.log.take(logged.len() as int)[i]);
    }
}

/// A move of the pointer moves it and does nothing else; other buttons, wheels and keys that mean
/// nothing leave all as it is; tab moves the focus on, and enter and space click what has it.
pub proof fn law_input_does_what_it_means<
    E: Fn(&Plan) -> Option<Vec<Frame>>,
    H: FnOnce(&str, &Store, Origin) -> Option<Store>,
>(e: E, h: H, fl: Unit, a: RuntimeModel, input: InputModel, b: RuntimeModel, r: bool)
    requires
        reacted(e, h, fl, a, input, b, r),
    ensures
        input matches InputModel::PointerMoved { x, y } ==> !r && b == (RuntimeModel { cursor: (x, y), ..a }),
        input matches InputModel::PointerDown { button, .. } ==> button != PointerButton::Left ==> !r && b == a,
        input is PointerUp || input is Scroll || input is KeyUp || input is Pinch || input is Rotate ==> !r && b == a,
        input matches InputModel::KeyDown { key } ==> {
            &&& key == "Tab"@ ==> b == refocused(a, true) && (r <==> focus_ring(a).len() > 0)
            &&& key == "Enter"@ || key == "Space"@ ==> match a.focused {
                Some(id) => dispatched(e, h, fl, a, id, "click"@, Origin::Human, b, r),
                None => !r && b == a,
            }
            &&& key != "Tab"@ && key != "Enter"@ && key != "Space"@ ==> !r && b == a
        },
        input matches InputModel::PointerDown { x, y, button } ==> button == PointerButton::Left && under(
            fl,
            a,
            (x, y),
        ) is None ==> !r && b == (RuntimeModel { cursor: (x, y), ..a }),
{
    reveal_strlit("Tab");
    reveal_strlit("Enter");
    reveal_strlit("Space");
    assert("Tab"@.len() == 3 && "Enter"@.len() == 5 && "Space"@.len() == 5);
    if let InputModel::PointerDown { x, y, button } = input {
        if button == PointerButton::Left && under(fl, a, (x, y)) is None {
            let at = RuntimeModel { cursor: (x, y), ..a };
            assert forall|id: NodeId| !#[trigger] handled_by(fl, at, (x, y), "click"@, Some(id)) by {}
        }
    }
}

proof fn lemma_node_actions(id: NodeId, n: NodeModel, k: int, a: (NodeId, Seq<char>, Seq<char>))
    requires
        0 <= k <= in_order(n.callbacks.dom()).len(),
    ensures
        node_actions(id, n, k).contains(a) <==> a.0 == id && in_order(n.callbacks.dom()).take(k).contains(a.1) && a.2
            == n.callbacks[a.1].name,
    decreases k,
{
    let ks = in_order(n.callbacks.dom());
    if k > 0 {
        lemma_node_actions(id, n, k - 1, a);
        let before = node_actions(id, n, k - 1);
        let x = (id, ks[k - 1], n.callbacks[ks[k - 1]].name);
        let p = ks.take(k - 1);
        let q = ks.take(k);
        assert(q =~= p.push(ks[k - 1]));
        if before.contains(a) {
            let i = before.index_of(a);
            assert(before.push(x)[i] == a);
        }
        assert(before.push(x)[before.len() as int] == x);
        if before.push(x).contains(a) && a != x {
            let i = before.push(x).index_of(a);
            assert(before[i] == a);
        }
        if p.contains(a.1) {
            let i = p.index_of(a.1);
            assert(q[i] == a.1);
        }
        assert(q[k - 1] == ks[k - 1]);
        if q.contains(a.1) && a.1 != ks[k - 1] {
            let i = q.index_of(a.1);
            assert(p[i] == a.1);
        }
    } else {
        assert(ks.take(0) =~= Seq::<Seq<char>>::empty());
    }
}

/// What an interface offers is exactly what the nodes of the order answer: each event that a node
/// has a callback for, with the action that the callback names, and nothing else.
pub proof fn law_everything_that_answers_is_offered(
    t: Tree,
    order: Seq<NodeId>,
    k: int,
    a: (NodeId, Seq<char>, Seq<char>),
)
    requires
        0 <= k <= order.len(),
        forall|x: NodeId| #[trigger] t.nodes.dom().contains(x) ==> t.nodes[x].callbacks.dom().finite(),
    ensures
        offered(t, order, k).contains(a) <==> order.take(k).contains(a.0) && has_callback(t, a.0, a.1) && a.2
            == t.nodes[a.0].callbacks[a.1].name,
    decreases k,
{
    if k > 0 {
        law_everything_that_answers_is_offered(t, order, k - 1, a);
        let id = order[k - 1];
        let before = offered(t, order, k - 1);
        let p = order.take(k - 1);
        let q = order.take(k);
        assert(q =~= p.push(id));
        assert(q[k - 1] == id);
        if p.contains(a.0) {
            let i = p.index_of(a.0);
            assert(q[i] == a.0);
        }
        if q.contains(a.0) && a.0 != id {
            let i = q.index_of(a.0);
            assert(p[i] == a.0);
        }
        if t.nodes.dom().contains(id) {
            let n = t.nodes[id];
            let ks = in_order(n.callbacks.dom());
            lemma_finite_in_order(n.callbacks.dom());
            lemma_node_actions(id, n, ks.len() as int, a);
            let more = node_actions(id, n, ks.len() as int);
            assert(ks.take(ks.len() as int) =~= ks);
            assert(ks.to_set().contains(a.1) <==> ks.contains(a.1));
            if before.contains(a) {
                let i = before.index_of(a);
                assert((before + more)[i] == a);
            }
            if more.contains(a) {
                let i = more.index_of(a);
                assert((before + more)[before.len() + i] == a);
            }
            if (before + more).contains(a) {
                let i = (before + more).index_of(a);
                if i < before.len() {
                    assert(before[i] == a);
                } else {
                    assert(more[i - before.len()] == a);
                }
            }
        }
    } else {
        assert(order.take(0) =~= Seq::<NodeId>::empty());
    }
}

/// Every edit but an invocation touches the nodes that it names, and so has the document laid out
/// again.
pub proof fn law_edits_touch_the_nodes_they_name(m: MutationModel)
    ensures
        m matches MutationModel::SetProp { id, .. } ==> touches(m).contains(id),
        m matches MutationModel::RemoveProp { id, .. } ==> touches(m).contains(id),
        m matches MutationModel::CreateNode { id, .. } ==> touches(m).contains(id),
        m matches MutationModel::RemoveNode { id } ==> touches(m).contains(id),
        m matches MutationModel::SetRoot { id } ==> touches(m).contains(id),
        m matches MutationModel::SetCallback { id, .. } ==> touches(m).contains(id),
        m matches MutationModel::RemoveCallback { id, .. } ==> touches(m).contains(id),
        m matches MutationModel::SetBinding { id, .. } ==> touches(m).contains(id),
        m matches MutationModel::RemoveBinding { id, .. } ==> touches(m).contains(id),
        m matches MutationModel::Reconstruct { id, .. } ==> touches(m).contains(id),
        m matches MutationModel::AppendChild { parent, child } ==> touches(m).contains(parent) && touches(m).contains(
            child,
        ),
        m matches MutationModel::RemoveChild { parent, child } ==> touches(m).contains(parent) && touches(m).contains(
            child,
        ),
        m is Invoke <==> touches(m) == Set::<NodeId>::empty(),
{
    match m {
        MutationModel::Invoke { .. } => {},
        MutationModel::AppendChild { parent, .. } => {
            assert(touches(m).contains(parent));
        },
        MutationModel::RemoveChild { parent, .. } => {
            assert(touches(m).contains(parent));
        },
        MutationModel::SetProp { id, .. } => {
            assert(touches(m).contains(id));
        },
        MutationModel::RemoveProp { id, .. } => {
            assert(touches(m).contains(id));
        },
        MutationModel::CreateNode { id, .. } => {
            assert(touches(m).contains(id));
        },
        MutationModel::RemoveNode { id } => {
            assert(touches(m).contains(id));
        },
        MutationModel::SetRoot { id } => {
            assert(touches(m).contains(id));
        },
        MutationModel::SetCallback { id, .. } => {
            assert(touches(m).contains(id));
        },
        MutationModel::RemoveCallback { id, .. } => {
            assert(touches(m).contains(id));
        },
        MutationModel::SetBinding { id, .. } => {
            assert(touches(m).contains(id));
        },
        MutationModel::RemoveBinding { id, .. } => {
            assert(touches(m).contains(id));
        },
        MutationModel::Reconstruct { id, .. } => {
            assert(touches(m).contains(id));
        },
    }
}

/// The id of a node to assistive technology leads back to the node.
pub proof fn law_assistive_id_leads_back(id: NodeId)
    requires
        id.0 < u64::MAX,
    ensures
        a11y_node((id.0 + 1) as u64) == id,
{
}

proof fn lemma_firing(d: Drive, s: Seq<RecognizerModel>, k: int, x: (NodeId, Seq<char>))
    requires
        0 <= k <= s.len(),
    ensures
        firing(d, s, k).contains(x) <==> exists|i: int, j: int|
            0 <= i < k && 0 <= j < d(s[i]).1.len() && x.0 == (#[trigger] s[i]).node && x.1 == gesture_event_name(
                s[i].action,
                #[trigger] d(s[i]).1[j],
            ),
    decreases k,
{
    if k > 0 {
        lemma_firing(d, s, k - 1, x);
        let before = firing(d, s, k - 1);
        let rec = s[k - 1];
        let more = named(rec, d(rec).1);
        let all = before + more;
        if before.contains(x) {
            let i = before.index_of(x);
            assert(all[i] == x);
        }
        if more.contains(x) {
            let j = more.index_of(x);
            assert(all[before.len() + j] == x);
            assert(x.0 == s[k - 1].node && x.1 == gesture_event_name(s[k - 1].action, d(s[k - 1]).1[j]));
        }
        if all.contains(x) {
            let i = all.index_of(x);
            if i < before.len() {
                assert(before[i] == x);
            } else {
                assert(more[i - before.len()] == x);
            }
        }
        if exists|i: int, j: int|
            0 <= i < k && 0 <= j < d(s[i]).1.len() && x.0 == (#[trigger] s[i]).node && x.1 == gesture_event_name(
                s[i].action,
                #[trigger] d(s[i]).1[j],
            ) {
            let (i, j) = choose|i: int, j: int|
                0 <= i < k && 0 <= j < d(s[i]).1.len() && x.0 == (#[trigger] s[i]).node && x.1 == gesture_event_name(
                    s[i].action,
                    #[trigger] d(s[i]).1[j],
                );
            if i == k - 1 {
                assert(more[j] == x);
            }
        }
    }
}

/// What an input event or the passing of time fires is exactly what the recognisers report, each on
/// the node of its recogniser and under the name of its action.
pub proof fn law_reports_are_fired(fl: Unit, m: RuntimeModel, input: InputModel, dt: u32, x: (NodeId, Seq<char>))
    ensures
        fed_events(fl, m, input).contains(x) <==> exists|i: int, j: int|
            0 <= i < m.gestures.len() && 0 <= j < feeding(fl, m, input)(m.gestures[i]).1.len() && x.0 == (
            #[trigger] m.gestures[i]).node && x.1 == gesture_event_name(
                m.gestures[i].action,
                #[trigger] feeding(fl, m, input)(m.gestures[i]).1[j],
            ),
        ticked_events(fl, m, dt).contains(x) <==> exists|i: int, j: int|
            0 <= i < m.gestures.len() && 0 <= j < ticking(fl, dt)(m.gestures[i]).1.len() && x.0 == (
            #[trigger] m.gestures[i]).node && x.1 == gesture_event_name(
                m.gestures[i].action,
                #[trigger] ticking(fl, dt)(m.gestures[i]).1[j],
            ),
{
    lemma_firing(feeding(fl, m, input), m.gestures, m.gestures.len() as int, x);
    lemma_firing(ticking(fl, dt), m.gestures, m.gestures.len() as int, x);
}

/// A press concerns the recognisers of the node under the pointer and of all above it, and a pointer
/// event those that follow a press already; a recogniser takes the event in by itself and keeps its
/// place, its node and its action.
pub proof fn law_events_reach_the_recognisers(fl: Unit, m: RuntimeModel, input: InputModel, i: int, start: NodeId, k: nat)
    requires
        0 <= i < m.gestures.len(),
    ensures
        after_feeding(fl, m, input).gestures.len() == m.gestures.len(),
        after_feeding(fl, m, input).gestures[i].node == m.gestures[i].node,
        after_feeding(fl, m, input).gestures[i].action == m.gestures[i].action,
        after_feeding(fl, m, input).gestures[i].kind == m.gestures[i].kind,
        after_feeding(fl, m, input).doc == m.doc,
        input matches InputModel::PointerDown { x, y, .. } ==> under(fl, m, (x, y)) == Some(start) && ancestor(
            m.doc.tree,
            start,
            k,
        ) == Some(m.gestures[i].node) ==> concerns(fl, m, input, m.gestures[i]),
        input matches InputModel::PointerDown { x, y, .. } ==> under(fl, m, (x, y)) is None && m.gestures[i].phase
            == Phase::Idle ==> !concerns(fl, m, input, m.gestures[i]),
        (input is PointerMoved || input is PointerUp || input is PointerDown) && m.gestures[i].phase != Phase::Idle
            ==> concerns(fl, m, input, m.gestures[i]),
        ({
            let taken = fed(fl, m.gestures[i], input, concerns(fl, m, input, m.gestures[i])).0;
            let after = after_feeding(fl, m, input).gestures[i];
            after == taken || (after.phase == Phase::Idle && (taken.kind is Tap || taken.kind is LongPress))
        }),
{
    let d = feeding(fl, m, input);
    let s = driven(d, m.gestures);
    assert(s[i] == d(m.gestures[i]).0);
    crate::gesture_law::law_recogniser_keeps_its_purpose(
        fl,
        m.gestures[i],
        input,
        concerns(fl, m, input, m.gestures[i]),
        0,
    );
    if let InputModel::PointerDown { x, y, .. } = input {
        if under(fl, m, (x, y)) == Some(start) && ancestor(m.doc.tree, start, k) == Some(m.gestures[i].node) {
            assert(lands_on(fl, m, (x, y), m.gestures[i].node));
        }
    }
}

/// Time that makes a long press fire gives up the taps on its node, and leaves every other
/// recogniser as time by itself leaves it.
pub proof fn law_long_press_gives_up_taps(fl: Unit, m: RuntimeModel, dt: u32, i: int, j: int)
    requires
        0 <= i < m.gestures.len(),
        0 <= j < m.gestures.len(),
        m.gestures[i].kind is Tap,
        m.gestures[j].node == m.gestures[i].node,
        ticked(fl, m.gestures[j], dt).1.len() > 0,
    ensures
        after_ticking(fl, m, dt).gestures[i].phase == Phase::Idle,
        after_ticking(fl, m, dt).gestures[i].tap_count == 0,
        forall|k: int|
            0 <= k < m.gestures.len() && !(m.gestures[k].kind is Tap) ==> (#[trigger] after_ticking(
                fl,
                m,
                dt,
            ).gestures[k]) == ticked(fl, m.gestures[k], dt).0,
{
    let d = ticking(fl, dt);
    let ev = ticked_events(fl, m, dt);
    let e = d(m.gestures[j]).1[0];
    let x = (m.gestures[j].node, gesture_event_name(m.gestures[j].action, e));
    lemma_firing(d, m.gestures, m.gestures.len() as int, x);
    assert(x.0 == m.gestures[j].node && x.1 == gesture_event_name(m.gestures[j].action, d(m.gestures[j]).1[0]));
    assert(ev.contains(x));
    let at = ev.index_of(x);
    assert(ev[at].0 == m.gestures[i].node);
    let s = driven(d, m.gestures);
    assert(s[i] == d(m.gestures[i]).0);
    assert forall|k: int| 0 <= k < m.gestures.len() && !(m.gestures[k].kind is Tap) implies (
    #[trigger] after_ticking(fl, m, dt).gestures[k]) == ticked(fl, m.gestures[k], dt).0 by {
        assert(s[k] == d(m.gestures[k]).0);
    }
}

/// The end of pinches and rotations fires exactly what the recognisers have to report about it, and
/// leaves each of them as its own end does.
pub proof fn law_ends_are_fired(m: RuntimeModel, i: int, x: (NodeId, Seq<char>))
    requires
        0 <= i < m.gestures.len(),
    ensures
        after_ending(m).gestures.len() == m.gestures.len(),
        after_ending(m).gestures[i] == concluded(m.gestures[i]).0,
        after_ending(m).doc == m.doc,
        ended_events(m).contains(x) <==> exists|k: int, j: int|
            0 <= k < m.gestures.len() && 0 <= j < concluded(m.gestures[k]).1.len() && x.0 == (
            #[trigger] m.gestures[k]).node && x.1 == gesture_event_name(
                m.gestures[k].action,
                #[trigger] concluded(m.gestures[k]).1[j],
            ),
{
    lemma_firing(ending(), m.gestures, m.gestures.len() as int, x);
    let d = ending();
    assert forall|k: int, j: int|
        0 <= k < m.gestures.len() && 0 <= j < concluded(m.gestures[k]).1.len() && x.0 == (
        #[trigger] m.gestures[k]).node && x.1 == gesture_event_name(
            m.gestures[k].action,
            #[trigger] concluded(m.gestures[k]).1[j],
        ) implies ended_events(m).contains(x) by {
        assert(d(m.gestures[k]).1[j] == concluded(m.gestures[k]).1[j]);
    }
    if ended_events(m).contains(x) {
        let (k, j) = choose|k: int, j: int|
            0 <= k < m.gestures.len() && 0 <= j < d(m.gestures[k]).1.len() && x.0 == (
            #[trigger] m.gestures[k]).node && x.1 == gesture_event_name(
                m.gestures[k].action,
                #[trigger] d(m.gestures[k]).1[j],
            );
        assert(concluded(m.gestures[k]).1[j] == d(m.gestures[k]).1[j]);
    }
}

/// The key of the assistant clicks, in its name, the first node up from the pointer that answers a
/// click; every other key and event is the person's.
pub proof fn law_assistant_clicks_under_the_pointer<
    E: Fn(&Plan) -> Option<Vec<Frame>>,
    H: FnOnce(&str, &Store, Origin) -> Option<Store>,
>(
    e: E,
    h: H,
    fl: Unit,
    a: RuntimeModel,
    input: InputModel,
    b: RuntimeModel,
    r: bool,
    start: NodeId,
    k: nat,
    id: NodeId,
)
    requires
        window_reacted(e, h, fl, a, input, b, r),
        under(fl, a, a.cursor) == Some(start),
        first_answer(a.doc.tree, start, "click"@, k, id),
    ensures
        input == (InputModel::KeyDown { key: "a"@ }) || input == (InputModel::KeyDown { key: "A"@ }) ==> {
            &&& b.doc.log.len() > a.doc.log.len()
            &&& b.doc.log[a.doc.log.len() as int] == (EditModel {
                origin: Origin::Ai,
                mutation: MutationModel::Invoke { id, event: "click"@ },
            })
            &&& b.focused == a.focused && b.cursor == a.cursor
        },
        input != (InputModel::KeyDown { key: "a"@ }) && input != (InputModel::KeyDown { key: "A"@ }) ==> reacted(
            e,
            h,
            fl,
            a,
            input,
            b,
            r,
        ),
{
    if input == (InputModel::KeyDown { key: "a"@ }) || input == (InputModel::KeyDown { key: "A"@ }) {
        let target = choose|target: Option<NodeId>| #[trigger]
            assistant_target(fl, a, target) && match target {
                Some(x) => dispatched(e, h, fl, a, x, "click"@, Origin::Ai, b, r),
                None => !r && b == a,
            };
        let t = a.doc.tree;
        assert(answers_at(t, start, "click"@, k));
        assert forall|j: nat| j < k implies !#[trigger] answers_at(t, start, "click"@, j) by {
            assert(!(ancestor(t, start, j) matches Some(x) && has_callback(t, x, "click"@)));
        }
        assert(!handled_by(fl, a, a.cursor, "click"@, None));
        assert(bubbles(t, start, "click"@, target));
        let m = choose|m: nat| {
            &&& #[trigger] answers_at(t, start, "click"@, m)
            &&& ancestor(t, start, m) == target
            &&& forall|j: nat| j < m ==> !#[trigger] answers_at(t, start, "click"@, j)
        };
        assert(m == k);
        law_dispatch_logs(e, h, fl, a, id, "click"@, Origin::Ai, b, r);
    }
}

} // verus!
