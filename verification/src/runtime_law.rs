//! What holds of every live interface.
use vstd::prelude::*;

use crate::float::Unit;
use crate::gesture::RecognizerModel;
use crate::gesture::Phase;
use crate::ir::{has_callback, DocModel, EditModel, MutationModel, Origin, Tree};
use crate::layout::{Frame, Plan};
use crate::motion_law::{lemma_values_logged, only_moves};
use crate::node::{NodeId, NodeModel};
use crate::runtime::{
    dispatched, focus_ring, focusable, gone_back, invoked, lemma_synced_sound, marked, navigated,
    next_place, node_updates, refocused, relaid, settled, sound, synced, touched, updates, with_presented,
    with_values, RuntimeModel,
};
use crate::store::Store;
use crate::text::{in_order, lemma_finite_in_order};
use crate::touch::{dragged, preceded};
use crate::value::ValueModel;
use crate::walk::{finite, lemma_walk_inside, same_shape, walk_order};

verus! {

/// Pushing the state into the properties never changes which nodes there are, how they hang
/// together, or what is bound on them; state, layout and all the rest stay as they are.
pub proof fn law_sync_keeps_ids(m: RuntimeModel)
    requires
        sound(m),
    ensures
        same_shape(m.doc.tree, synced(m).doc.tree),
        synced(m) == (RuntimeModel { doc: synced(m).doc, ..m }),
        m.doc.log.len() <= synced(m).doc.log.len(),
{
    lemma_synced_sound(m);
    let order = walk_order(m.doc.tree);
    let ups = updates(m.doc.tree, order, m.state, order.len() as int);
    lemma_log_grows(m.doc, ups, ups.len() as int);
}

proof fn lemma_log_grows(d: DocModel, ups: Seq<(NodeId, Seq<char>, ValueModel)>, k: int)
    ensures
        d.log.len() <= with_values(d, ups, k).log.len(),
    decreases k,
{
    if k > 0 {
        lemma_log_grows(d, ups, k - 1);
    }
}

/// Every update is for a binding of its node, with the value that the state has for it.
spec fn faithful(t: Tree, state: Map<Seq<char>, ValueModel>, u: (NodeId, Seq<char>, ValueModel)) -> bool {
    &&& t.nodes.dom().contains(u.0)
    &&& t.nodes[u.0].bindings.dom().contains(u.1)
    &&& state.dom().contains(t.nodes[u.0].bindings[u.1])
    &&& u.2 == state[t.nodes[u.0].bindings[u.1]]
}

proof fn lemma_node_updates(id: NodeId, n: NodeModel, state: Map<Seq<char>, ValueModel>, k: int)
    requires
        0 <= k <= in_order(n.bindings.dom()).len(),
    ensures
        forall|i: int|
            0 <= i < node_updates(id, n, state, k).len() ==> {
                let u = #[trigger] node_updates(id, n, state, k)[i];
                &&& u.0 == id
                &&& exists|j: int| 0 <= j < k && #[trigger] in_order(n.bindings.dom())[j] == u.1
                &&& state.dom().contains(n.bindings[u.1])
                &&& u.2 == state[n.bindings[u.1]]
            },
        forall|j: int|
            0 <= j < k && state.dom().contains(n.bindings[#[trigger] in_order(n.bindings.dom())[j]])
                ==> node_updates(id, n, state, k).contains(
                (
                    id,
                    in_order(n.bindings.dom())[j],
                    state[n.bindings[in_order(n.bindings.dom())[j]]],
                ),
            ),
    decreases k,
{
    if k > 0 {
        lemma_node_updates(id, n, state, k - 1);
        let keys = in_order(n.bindings.dom());
        let before = node_updates(id, n, state, k - 1);
        let now = node_updates(id, n, state, k);
        let key = keys[k - 1];
        assert forall|i: int| 0 <= i < now.len() implies {
            let u = #[trigger] now[i];
            &&& u.0 == id
            &&& exists|j: int| 0 <= j < k && #[trigger] keys[j] == u.1
            &&& state.dom().contains(n.bindings[u.1])
            &&& u.2 == state[n.bindings[u.1]]
        } by {
            if i < before.len() {
                assert(now[i] == before[i]);
            } else {
                assert(keys[k - 1] == now[i].1);
            }
        }
        assert forall|j: int| 0 <= j < k && state.dom().contains(n.bindings[#[trigger] keys[j]]) implies now.contains(
            (id, keys[j], state[n.bindings[keys[j]]]),
        ) by {
            if j < k - 1 {
                let u = (id, keys[j], state[n.bindings[keys[j]]]);
                assert(before.contains(u));
                let i = choose|i: int| 0 <= i < before.len() && before[i] == u;
                assert(now[i] == u);
            } else {
                assert(now[before.len() as int] == (id, keys[j], state[n.bindings[keys[j]]]));
            }
        }
    }
}

proof fn lemma_updates_hold(t: Tree, order: Seq<NodeId>, state: Map<Seq<char>, ValueModel>, k: int, at: int, key: Seq<char>)
    requires
        0 <= at < k <= order.len(),
        forall|id: NodeId|
            #![trigger t.nodes[id]]
            t.nodes.dom().contains(id) ==> in_order(t.nodes[id].bindings.dom()).to_set() == t.nodes[id].bindings.dom(),
        t.nodes.dom().contains(order[at]),
        t.nodes[order[at]].bindings.dom().contains(key),
        state.dom().contains(t.nodes[order[at]].bindings[key]),
    ensures
        updates(t, order, state, k).contains((order[at], key, state[t.nodes[order[at]].bindings[key]])),
    decreases k,
{
    let u = (order[at], key, state[t.nodes[order[at]].bindings[key]]);
    let before = updates(t, order, state, k - 1);
    let id = order[k - 1];
    let n = t.nodes[id];
    let own = node_updates(id, n, state, in_order(n.bindings.dom()).len() as int);
    let now = updates(t, order, state, k);
    if at < k - 1 {
        lemma_updates_hold(t, order, state, k - 1, at, key);
        let i = choose|i: int| 0 <= i < before.len() && before[i] == u;
        assert(now[i] == u);
    } else {
        let keys = in_order(n.bindings.dom());
        lemma_node_updates(id, n, state, keys.len() as int);
        assert(keys.to_set().contains(key));
        let j = choose|j: int| 0 <= j < keys.len() && keys[j] == key;
        assert(own.contains((id, keys[j], state[n.bindings[keys[j]]])));
        let i = choose|i: int| 0 <= i < own.len() && own[i] == u;
        assert(now[before.len() + i] == u);
    }
}

proof fn lemma_updates_faithful(t: Tree, order: Seq<NodeId>, state: Map<Seq<char>, ValueModel>, k: int)
    requires
        0 <= k <= order.len(),
        forall|i: int| 0 <= i < order.len() ==> t.nodes.dom().contains(#[trigger] order[i]),
        forall|id: NodeId|
            #![trigger t.nodes[id]]
            t.nodes.dom().contains(id) ==> in_order(t.nodes[id].bindings.dom()).to_set() == t.nodes[id].bindings.dom(),
    ensures
        forall|i: int| 0 <= i < updates(t, order, state, k).len() ==> faithful(t, state, #[trigger] updates(t, order, state, k)[i]),
    decreases k,
{
    if k > 0 {
        lemma_updates_faithful(t, order, state, k - 1);
        let before = updates(t, order, state, k - 1);
        let id = order[k - 1];
        let n = t.nodes[id];
        let keys = in_order(n.bindings.dom());
        let own = node_updates(id, n, state, keys.len() as int);
        lemma_node_updates(id, n, state, keys.len() as int);
        let now = updates(t, order, state, k);
        assert forall|i: int| 0 <= i < now.len() implies faithful(t, state, #[trigger] now[i]) by {
            if i < before.len() {
                assert(now[i] == before[i]);
            } else {
                let u = own[i - before.len()];
                assert(now[i] == u);
                let j = choose|j: int| 0 <= j < keys.len() && #[trigger] keys[j] == u.1;
                assert(keys.to_set().contains(keys[j]));
            }
        }
    }
}

/// What setting the first `k` of some properties leaves under a key of a node.
proof fn lemma_value_lands(
    d: DocModel,
    t: Tree,
    state: Map<Seq<char>, ValueModel>,
    ups: Seq<(NodeId, Seq<char>, ValueModel)>,
    k: int,
    id: NodeId,
    key: Seq<char>,
)
    requires
        0 <= k <= ups.len(),
        t == d.tree,
        forall|i: int| 0 <= i < ups.len() ==> faithful(t, state, #[trigger] ups[i]),
        t.nodes.dom().contains(id),
    ensures
        with_values(d, ups, k).tree.nodes.dom() == t.nodes.dom(),
        (exists|i: int| 0 <= i < k && (#[trigger] ups[i]).0 == id && ups[i].1 == key) ==> {
            let p = with_values(d, ups, k).tree.nodes[id].props;
            p.dom().contains(key) && p[key] == state[t.nodes[id].bindings[key]]
        },
        !(exists|i: int| 0 <= i < k && (#[trigger] ups[i]).0 == id && ups[i].1 == key) ==> {
            let p = with_values(d, ups, k).tree.nodes[id].props;
            let q = t.nodes[id].props;
            p.dom().contains(key) == q.dom().contains(key) && (q.dom().contains(key) ==> p[key] == q[key])
        },
    decreases k,
{
    if k > 0 {
        lemma_value_lands(d, t, state, ups, k - 1, id, key);
        let u = ups[k - 1];
        let e = with_values(d, ups, k - 1);
        assert(faithful(t, state, u));
        assert(e.tree.nodes.dom().contains(u.0));
        let r = with_values(d, ups, k);
        assert(r.tree.nodes.dom() =~= t.nodes.dom());
        if u.0 == id && u.1 == key {
            assert(ups[k - 1].0 == id && ups[k - 1].1 == key);
        } else {
            if exists|i: int| 0 <= i < k && (#[trigger] ups[i]).0 == id && ups[i].1 == key {
                let i = choose|i: int| 0 <= i < k && (#[trigger] ups[i]).0 == id && ups[i].1 == key;
                assert(i < k - 1);
                assert(ups[i].0 == id && ups[i].1 == key);
            }
        }
    }
}

/// After the state was pushed into the properties, every bound property of a node that the walk
/// meets has the value that the state holds for it. A property that is not bound, or bound to
/// nothing the state holds, is as it was.
pub proof fn law_sync_shows_state(m: RuntimeModel, at: int, key: Seq<char>)
    requires
        sound(m),
        0 <= at < walk_order(m.doc.tree).len(),
        countable(m.doc.tree),
    ensures
        ({
            let id = walk_order(m.doc.tree)[at];
            let n = m.doc.tree.nodes[id];
            let p = synced(m).doc.tree.nodes[id].props;
            if n.bindings.dom().contains(key) && m.state.dom().contains(n.bindings[key]) {
                p.dom().contains(key) && p[key] == m.state[n.bindings[key]]
            } else {
                p.dom().contains(key) == n.props.dom().contains(key) && (n.props.dom().contains(key) ==> p[key]
                    == n.props[key])
            }
        }),
{
    let t = m.doc.tree;
    let order = walk_order(t);
    let id = order[at];
    let ups = updates(t, order, m.state, order.len() as int);
    assert forall|i: int| 0 <= i < order.len() implies t.nodes.dom().contains(#[trigger] order[i]) by {
        lemma_walk_inside(t, i);
    }
    assert forall|x: NodeId|
        #![trigger t.nodes[x]]
        t.nodes.dom().contains(x) implies in_order(t.nodes[x].bindings.dom()).to_set() == t.nodes[x].bindings.dom() by {
        lemma_finite_in_order(t.nodes[x].bindings.dom());
    }
    lemma_updates_faithful(t, order, m.state, order.len() as int);
    lemma_value_lands(m.doc, t, m.state, ups, ups.len() as int, id, key);
    let n = t.nodes[id];
    if n.bindings.dom().contains(key) && m.state.dom().contains(n.bindings[key]) {
        lemma_updates_hold(t, order, m.state, order.len() as int, at, key);
        let i = choose|i: int| 0 <= i < ups.len() && ups[i] == (id, key, m.state[n.bindings[key]]);
        assert(ups[i].0 == id && ups[i].1 == key);
    } else if exists|i: int| 0 <= i < ups.len() && (#[trigger] ups[i]).0 == id && ups[i].1 == key {
        let i = choose|i: int| 0 <= i < ups.len() && (#[trigger] ups[i]).0 == id && ups[i].1 == key;
        assert(faithful(t, m.state, ups[i]));
    }
}

/// The bindings of every node are finite in number, as those of every document are.
pub open spec fn countable(t: Tree) -> bool {
    forall|id: NodeId|
        #![trigger t.nodes[id]]
        t.nodes.dom().contains(id) ==> t.nodes[id].bindings.dom().finite()
}

/// An invocation changes nothing but the log, whoever makes it, and it is logged with its origin.
pub proof fn law_invocation_is_audited(m: RuntimeModel, id: NodeId, event: Seq<char>, origin: Origin)
    requires
        m.doc.tree.nodes.dom().contains(id),
    ensures
        invoked(m, id, event, origin) == (RuntimeModel {
            doc: DocModel {
                log: m.doc.log.push(
                    EditModel { origin, mutation: MutationModel::Invoke { id, event } },
                ),
                ..m.doc
            },
            ..m
        }),
{
}

/// Without a callback for the event nothing happens, whoever fires it.
pub proof fn law_no_callback_no_effect<E: Fn(&Plan) -> Option<Vec<Frame>>, H: FnOnce(&str, &Store, Origin) -> Option<Store>>(
    e: E,
    h: H,
    fl: Unit,
    a: RuntimeModel,
    target: NodeId,
    event: Seq<char>,
    origin: Origin,
    b: RuntimeModel,
    r: bool,
)
    requires
        !has_callback(a.doc.tree, target, event),
        dispatched(e, h, fl, a, target, event, origin, b, r),
    ensures
        !r,
        b == a,
{
}

/// There is no back door: whatever firing an event does, it first logs the invocation with its origin
/// behind all that was logged before, and only the system setting properties comes after that. So it
/// is wherever a handler ran or anything at all has changed.
pub proof fn law_no_back_door<E: Fn(&Plan) -> Option<Vec<Frame>>, H: FnOnce(&str, &Store, Origin) -> Option<Store>>(
    e: E,
    h: H,
    fl: Unit,
    a: RuntimeModel,
    target: NodeId,
    event: Seq<char>,
    origin: Origin,
    b: RuntimeModel,
    r: bool,
)
    requires
        dispatched(e, h, fl, a, target, event, origin, b, r),
    ensures
        r || b != a ==> has_callback(a.doc.tree, target, event) && only_moves(
            (DocModel {
                log: a.doc.log.push(EditModel { origin, mutation: MutationModel::Invoke { id: target, event } }),
                ..a.doc
            }),
            b.doc,
        ),
{
    if has_callback(a.doc.tree, target, event) {
        let f = invoked(a, target, event, origin);
        law_invocation_is_audited(a, target, event, origin);
        let (name, s, out) = choose|name: &str, s: &Store, out: Option<Store>| #[trigger]
            call_ensures(h, (name, s, origin), out) && name@
                == a.doc.tree.nodes[target].callbacks[event].name && s@ == a.state && s.ticks() == a.ticks
                && r == (out is Some) && match out {
                Some(t) => settled(e, fl, (RuntimeModel { state: t@, ticks: t.ticks(), ..f }), b),
                None => b == f,
            };
        match out {
            Some(t) => {
                let g = RuntimeModel { state: t@, ticks: t.ticks(), ..f };
                let order = walk_order(g.doc.tree);
                let ups = updates(g.doc.tree, order, g.state, order.len() as int);
                lemma_values_logged(g.doc, ups, ups.len() as int);
            },
            None => {
                lemma_values_logged(f.doc, Seq::empty(), 0);
            },
        }
    }
}

/// A layout leaves document and state alone, and nothing is dirty after it.
pub proof fn law_layout_settles_dirt<E: Fn(&Plan) -> Option<Vec<Frame>>>(e: E, fl: Unit, a: RuntimeModel, b: RuntimeModel)
    requires
        relaid(e, fl, a, b),
    ensures
        b.doc == a.doc,
        b.state == a.state,
        b.dirty == Set::<NodeId>::empty(),
        b.audit_cursor == a.doc.log.len(),
{
}

/// Where no edit but invocations came since the last layout, the layout stays.
pub proof fn law_clean_layout_stays<E: Fn(&Plan) -> Option<Vec<Frame>>>(e: E, fl: Unit, a: RuntimeModel, b: RuntimeModel)
    requires
        relaid(e, fl, a, b),
        a.dirty == Set::<NodeId>::empty(),
        a.layout.order.len() > 0,
        0 <= a.audit_cursor <= a.doc.log.len(),
        forall|i: int| a.audit_cursor <= i < a.doc.log.len() ==> (#[trigger] a.doc.log[i]).mutation is Invoke,
    ensures
        b.layout == a.layout,
{
    lemma_invokes_touch_nothing(a, a.doc.log.len() as int);
    assert(marked(a).dirty =~= Set::<NodeId>::empty());
}

proof fn lemma_invokes_touch_nothing(a: RuntimeModel, j: int)
    requires
        a.audit_cursor <= j <= a.doc.log.len(),
        0 <= a.audit_cursor,
        forall|i: int| a.audit_cursor <= i < a.doc.log.len() ==> (#[trigger] a.doc.log[i]).mutation is Invoke,
    ensures
        touched(a.doc.log, a.audit_cursor, j) == Set::<NodeId>::empty(),
    decreases j - a.audit_cursor,
{
    if a.audit_cursor < j {
        lemma_invokes_touch_nothing(a, j - 1);
        assert(a.doc.log[j - 1].mutation is Invoke);
        assert(touched(a.doc.log, a.audit_cursor, j) =~= Set::<NodeId>::empty());
    } else {
        assert(touched(a.doc.log, a.audit_cursor, j) =~= Set::<NodeId>::empty());
    }
}

/// Going back after going to a route leads back to the routes before, puts the route before back into
/// the state and leaves every other key as it was, though the interface has settled after each.
pub proof fn law_back_undoes_navigate<E: Fn(&Plan) -> Option<Vec<Frame>>>(
    e: E,
    fl: Unit,
    a: RuntimeModel,
    route: Seq<char>,
    there: Origin,
    b: RuntimeModel,
    back: Origin,
    c: RuntimeModel,
)
    requires
        settled(e, fl, navigated(a, route, there), b),
        settled(e, fl, gone_back(b, back), c),
    ensures
        b.nav == a.nav.push(route),
        b.state == a.state.insert("route"@, ValueModel::Text(route)),
        c.nav == a.nav,
        c.state == a.state.insert(
            "route"@,
            ValueModel::Text(
                if a.nav.len() > 0 {
                    a.nav.last()
                } else {
                    Seq::empty()
                },
            ),
        ),
{
    assert(a.nav.push(route).drop_last() =~= a.nav);
    assert(c.state =~= a.state.insert("route"@, c.state["route"@]));
}

/// What is presented is so in the state, what is dismissed is not, and no other key is touched.
pub proof fn law_present_and_dismiss(m: RuntimeModel, key: Seq<char>, value: bool, origin: Origin, other: Seq<char>)
    ensures
        with_presented(m, key, value, origin).state[key] == ValueModel::Bool(value),
        other != key ==> with_presented(m, key, value, origin).state.dom().contains(other) == m.state.dom().contains(
            other,
        ),
        other != key && m.state.dom().contains(other) ==> with_presented(m, key, value, origin).state[other]
            == m.state[other],
{
}

proof fn lemma_ring_clickable(t: Tree, order: Seq<NodeId>, k: int, i: int)
    requires
        0 <= k <= order.len(),
        0 <= i < focusable(t, order, k).len(),
    ensures
        has_callback(t, focusable(t, order, k)[i], "click"@),
        order.contains(focusable(t, order, k)[i]),
    decreases k,
{
    if has_callback(t, order[k - 1], "click"@) {
        if i < focusable(t, order, k - 1).len() {
            lemma_ring_clickable(t, order, k - 1, i);
        }
    } else {
        lemma_ring_clickable(t, order, k - 1, i);
    }
}

/// The focus only ever goes to a node that was laid out and can be clicked; where there is none,
/// it stays.
pub proof fn law_focus_goes_to_clickable(m: RuntimeModel, forward: bool)
    ensures
        focus_ring(m).len() == 0 ==> refocused(m, forward) == m,
        focus_ring(m).len() > 0 ==> {
            let f = refocused(m, forward).focused;
            f is Some && has_callback(m.doc.tree, f->0, "click"@) && m.layout.order.contains(f->0)
        },
{
    let ring = focus_ring(m);
    if ring.len() > 0 {
        let i = next_place(ring, m.focused, forward);
        lemma_place_in_ring(ring, m.focused, forward);
        lemma_ring_clickable(m.doc.tree, m.layout.order, m.layout.order.len() as int, i);
    }
}

proof fn lemma_place_in_ring(ring: Seq<NodeId>, focused: Option<NodeId>, forward: bool)
    requires
        ring.len() > 0,
    ensures
        0 <= next_place(ring, focused, forward) < ring.len(),
{
    let n = ring.len() as int;
    match focused {
        Some(cur) => {
            let at = match ring.index_of_first(cur) {
                Some(i) => i,
                None => 0,
            };
            vstd::arithmetic::div_mod::lemma_mod_bound(at + 1, n);
            vstd::arithmetic::div_mod::lemma_mod_bound(at + n - 1, n);
        },
        None => {},
    }
}

/// Where no node is in the ring twice, a step forward and a step back lead to where the focus
/// was, around the ends as well.
pub proof fn law_focus_wraps_around(m: RuntimeModel, at: int)
    requires
        focus_ring(m).no_duplicates(),
        0 <= at < focus_ring(m).len(),
        m.focused == Some(focus_ring(m)[at]),
    ensures
        refocused(refocused(m, true), false).focused == m.focused,
        refocused(refocused(m, false), true).focused == m.focused,
        at == focus_ring(m).len() - 1 ==> refocused(m, true).focused == Some(focus_ring(m)[0]),
        at == 0 ==> refocused(m, false).focused == Some(focus_ring(m).last()),
{
    let ring = focus_ring(m);
    let n = ring.len() as int;
    lemma_first_place(ring, at);
    let up = next_place(ring, m.focused, true);
    let down = next_place(ring, m.focused, false);
    lemma_place_in_ring(ring, m.focused, true);
    lemma_place_in_ring(ring, m.focused, false);
    lemma_first_place(ring, up);
    lemma_first_place(ring, down);
    assert(up == if at == n - 1 {
        0
    } else {
        at + 1
    }) by (nonlinear_arith)
        requires
            up == (at + 1) % n,
            0 <= at < n,
    ;
    assert(down == if at == 0 {
        n - 1
    } else {
        at - 1
    }) by (nonlinear_arith)
        requires
            down == (at + n - 1) % n,
            0 <= at < n,
    ;
    assert((up + n - 1) % n == at) by (nonlinear_arith)
        requires
            up == (if at == n - 1 {
                0
            } else {
                at + 1
            }),
            0 <= at < n,
    ;
    assert((down + 1) % n == at) by (nonlinear_arith)
        requires
            down == (if at == 0 {
                n - 1
            } else {
                at - 1
            }),
            0 <= at < n,
    ;
}

proof fn lemma_first_place(ring: Seq<NodeId>, at: int)
    requires
        ring.no_duplicates(),
        0 <= at < ring.len(),
    ensures
        ring.index_of_first(ring[at]) == Some(at),
{
    ring.index_of_first_ensures(ring[at]);
}

/// Once drags took precedence, no tap and no long press is followed on a node where one goes on.
pub proof fn law_drag_wins(s: Seq<RecognizerModel>, i: int)
    requires
        0 <= i < s.len(),
        s[i].kind is Tap || s[i].kind is LongPress,
        dragged(s, s[i].node),
    ensures
        preceded(s)[i].phase == Phase::Idle,
{
}

/// What does not stand in the way of a drag is left alone.
pub proof fn law_no_drag_no_cancel(s: Seq<RecognizerModel>, i: int)
    requires
        0 <= i < s.len(),
        !dragged(s, s[i].node),
    ensures
        preceded(s)[i] == s[i],
{
}

} // verus!
