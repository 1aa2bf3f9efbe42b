//! What holds of a change of an animated property over all the ticks that follow it.
use vstd::prelude::*;

use crate::animation::{carried, done, presented, scalar_at, shown, Animation, EntryModel, Sampler};
use crate::env::window_env;
use crate::float::{abs32, le32, lt32, sub32, Unit};
use crate::ir::{DocModel, Tree};
use crate::layout::{Frame, Plan};
use crate::motion::{
    advanced, aged, begun, change_of, changes_of, detected, frame, moved_numbers, moved_values, noticed, presented_among, seeded,
    springs_left, sprung, started, started_by, transition_of, watched, without, Stepper, LEAST_CHANGE,
};
use crate::motion_law::{
    aged_by, at_rest, finished_by, frame_follows, frames, law_every_number_is_noticed, lemma_begun_doc, lemma_begun_one_each,
    lemma_frames, lemma_left, lemma_moved_at, lemma_presented_among, lemma_same_entry, lemma_same_ids, lemma_value_stays,
    lemma_without, one_each, self_difference_is_small,
};
use crate::node::NodeId;
use crate::runtime::{initial, lemma_with_values, relaid, settled, updates, with_values, RuntimeModel};
use crate::session::begins;
use crate::value::ValueModel;
use crate::walk::{finite, lemma_same_walk, lemma_walk_inside, walk_order};

verus! {

/// Every animation moves a property that is watched.
pub open spec fn watches(es: Seq<EntryModel>) -> bool {
    forall|i: int| 0 <= i < es.len() ==> watched().contains((#[trigger] es[i]).prop)
}

/// The interface goes through the states in ticks of the given times, with no edit in between.
pub open spec fn ticks<E: Fn(&Plan) -> Option<Vec<Frame>>>(
    e: E,
    fl: Unit,
    s: Sampler,
    g: Stepper,
    ms: Seq<RuntimeModel>,
    dts: Seq<u32>,
) -> bool {
    &&& ms.len() == dts.len() + 1
    &&& forall|i: int, j: int|
        0 <= i < dts.len() && j == i + 1 ==> relaid(e, fl, frame(fl, s, g, #[trigger] ms[i], dts[i]), #[trigger] ms[j])
}

/// What ticks need and keep: the document can be walked, no spring goes on, and what goes on is one
/// animation for each of some watched properties.
pub open spec fn orderly(m: RuntimeModel) -> bool {
    &&& finite(m.doc.tree)
    &&& m.springs.len() == 0
    &&& one_each(m.implicit)
    &&& watches(m.implicit)
}

/// A live interface begins orderly.
pub proof fn law_beginning_is_orderly<E: Fn(&Plan) -> Option<Vec<Frame>>>(
    e: E,
    fl: Unit,
    d: DocModel,
    viewport: (u32, u32),
    b: RuntimeModel,
)
    requires
        finite(d.tree),
        begins(e, fl, d, viewport, b),
    ensures
        orderly(b),
{
    let a = initial(d, viewport, window_env(viewport.0, viewport.1));
    let m = choose|m: RuntimeModel| #[trigger] settled(e, fl, a, m) && b == seeded(fl, m);
    let order = walk_order(d.tree);
    let ups = updates(d.tree, order, a.state, order.len() as int);
    lemma_with_values(d, ups, ups.len() as int);
    lemma_same_walk(d.tree, m.doc.tree);
}

/// The numbers last seen of the nodes that are walked over are those that they have.
spec fn in_step(fl: Unit, m: RuntimeModel) -> bool {
    let order = walk_order(m.doc.tree);
    forall|i: int, p: int|
        0 <= i < order.len() && 0 <= p < 6 && scalar_at(fl, m.doc.tree.nodes[#[trigger] order[i]], #[trigger] watched()[p]) is Some
            && m.props.dom().contains((order[i], watched()[p])) ==> scalar_at(
            fl,
            m.doc.tree.nodes[order[i]],
            watched()[p],
        ) == Some(m.props[(order[i], watched()[p])])
}

proof fn lemma_no_changes_in_step(fl: Unit, s: Sampler, m: RuntimeModel, i: int, anim: Animation, k: int)
    requires
        self_difference_is_small(fl),
        in_step(fl, m),
        0 <= i < walk_order(m.doc.tree).len(),
        k <= 6,
    ensures
        changes_of(fl, s, m, walk_order(m.doc.tree)[i], anim, k).len() == 0,
    decreases k,
{
    if k > 0 {
        lemma_no_changes_in_step(fl, s, m, i, anim, k - 1);
        let id = walk_order(m.doc.tree)[i];
        let p = watched()[k - 1];
        if scalar_at(fl, m.doc.tree.nodes[id], p) is Some && m.props.dom().contains((id, p)) {
            let v = m.props[(id, p)];
            assert(scalar_at(fl, m.doc.tree.nodes[id], p) == Some(v));
            assert(!lt32(LEAST_CHANGE, abs32(sub32(fl, v, v))));
        }
    }
}

proof fn lemma_quiet_in_step(fl: Unit, s: Sampler, m: RuntimeModel, k: int)
    requires
        self_difference_is_small(fl),
        in_step(fl, m),
        m.present == walk_order(m.doc.tree).to_set(),
        m.presented == presented_among(fl, m.doc.tree, walk_order(m.doc.tree), walk_order(m.doc.tree).len() as int),
        0 <= k <= walk_order(m.doc.tree).len(),
    ensures
        started(fl, s, m, walk_order(m.doc.tree), k).len() == 0,
    decreases k,
{
    let order = walk_order(m.doc.tree);
    if k > 0 {
        lemma_quiet_in_step(fl, s, m, k - 1);
        let id = order[k - 1];
        lemma_presented_among(fl, m.doc.tree, order, order.len() as int);
        assert(order.to_set().contains(id));
        match carried(fl, m.doc.tree.nodes[id]) {
            Some(anim) => {
                lemma_no_changes_in_step(fl, s, m, k - 1, anim, 6);
            },
            None => {},
        }
        assert(transition_of(fl, m, id) is None);
        assert(started_by(fl, s, m, id).len() == 0);
    }
}

proof fn lemma_changes_watch(fl: Unit, s: Sampler, m: RuntimeModel, id: NodeId, anim: Animation, k: int)
    requires
        k <= 6,
    ensures
        watches(changes_of(fl, s, m, id, anim, k)),
    decreases k,
{
    if k > 0 {
        lemma_changes_watch(fl, s, m, id, anim, k - 1);
        assert(watched().contains(watched()[k - 1]));
    }
}

proof fn lemma_started_watch(fl: Unit, s: Sampler, m: RuntimeModel, order: Seq<NodeId>, k: int)
    requires
        0 <= k <= order.len(),
    ensures
        watches(started(fl, s, m, order, k)),
    decreases k,
{
    if k > 0 {
        lemma_started_watch(fl, s, m, order, k - 1);
        let id = order[k - 1];
        match carried(fl, m.doc.tree.nodes[id]) {
            Some(anim) => {
                lemma_changes_watch(fl, s, m, id, anim, 6);
            },
            None => {},
        }
        assert(watched()[2] == "opacity"@);
        assert(watched().contains("opacity"@));
        assert(watches(started_by(fl, s, m, id)));
    }
}

proof fn lemma_begun_watch(m: RuntimeModel, es: Seq<EntryModel>, k: int)
    requires
        0 <= k <= es.len(),
        one_each(m.implicit),
        watches(m.implicit),
        watches(es),
    ensures
        watches(begun(m, es, k).implicit),
    decreases k,
{
    if k > 0 {
        lemma_begun_watch(m, es, k - 1);
        lemma_begun_one_each(m, es, k - 1);
        let b = begun(m, es, k - 1);
        let e = es[k - 1];
        lemma_without(b.implicit, e.id, e.prop);
        let w = without(b.implicit, e.id, e.prop);
        assert forall|i: int| 0 <= i < w.push(e).len() implies watched().contains((#[trigger] w.push(e)[i]).prop) by {
            if i < w.len() {
                assert(w.contains(w[i]));
                let j = choose|j: int| 0 <= j < b.implicit.len() && b.implicit[j] == w[i];
                assert(watched().contains(b.implicit[j].prop));
            }
        }
    }
}

/// Some animation goes on with a property of a node.
spec fn goes_on(es: Seq<EntryModel>, id: NodeId, prop: Seq<char>) -> bool {
    exists|i: int| 0 <= i < es.len() && (#[trigger] es[i]).id == id && es[i].prop == prop
}

/// What was begun goes on: an animation that is the only one to start with its property.
proof fn lemma_begun_has(m: RuntimeModel, es: Seq<EntryModel>, k: int, x: EntryModel)
    requires
        0 <= k <= es.len(),
        forall|i: int| 0 <= i < es.len() && (#[trigger] es[i]).id == x.id && es[i].prop == x.prop ==> es[i] == x,
    ensures
        (exists|i: int| 0 <= i < k && #[trigger] es[i] == x) ==> begun(m, es, k).implicit.contains(x),
    decreases k,
{
    if k > 0 {
        lemma_begun_has(m, es, k - 1, x);
        let b = begun(m, es, k - 1);
        let e = es[k - 1];
        let w = without(b.implicit, e.id, e.prop);
        if exists|i: int| 0 <= i < k && #[trigger] es[i] == x {
            if e == x {
                assert(w.push(e)[w.len() as int] == x);
            } else {
                let i = choose|i: int| 0 <= i < k && #[trigger] es[i] == x;
                assert(i < k - 1);
                let keep = |y: EntryModel| !(y.id == e.id && y.prop == e.prop);
                b.implicit.filter_lemma(keep);
                assert(keep(x));
                let j = choose|j: int| 0 <= j < b.implicit.len() && b.implicit[j] == x;
                assert(b.implicit.filter(keep).contains(b.implicit[j]));
                assert(w.contains(x));
                let l = choose|l: int| 0 <= l < w.len() && w[l] == x;
                assert(w.push(e)[l] == x);
            }
        }
    }
}

/// Whatever started goes on with its property in some way.
proof fn lemma_begun_goes_on(m: RuntimeModel, es: Seq<EntryModel>, k: int, id: NodeId, prop: Seq<char>)
    requires
        0 <= k <= es.len(),
    ensures
        goes_on(es.take(k), id, prop) ==> goes_on(begun(m, es, k).implicit, id, prop),
    decreases k,
{
    if k > 0 {
        lemma_begun_goes_on(m, es, k - 1, id, prop);
        let b = begun(m, es, k - 1);
        let e = es[k - 1];
        let w = without(b.implicit, e.id, e.prop);
        if goes_on(es.take(k), id, prop) {
            if e.id == id && e.prop == prop {
                assert(w.push(e)[w.len() as int] == e);
            } else {
                let i = choose|i: int| 0 <= i < k && (#[trigger] es.take(k)[i]).id == id && es.take(k)[i].prop == prop;
                assert(es.take(k - 1)[i] == es[i]);
                assert(goes_on(es.take(k - 1), id, prop));
                let j = choose|j: int| 0 <= j < b.implicit.len() && (#[trigger] b.implicit[j]).id == id && b.implicit[j].prop == prop;
                let keep = |y: EntryModel| !(y.id == e.id && y.prop == e.prop);
                b.implicit.filter_lemma(keep);
                assert(keep(b.implicit[j]));
                assert(w.contains(b.implicit[j]));
                let l = choose|l: int| 0 <= l < w.len() && w[l] == b.implicit[j];
                assert(w.push(e)[l] == b.implicit[j]);
            }
        }
    }
}

/// What starts for one node of an order is among all that starts.
proof fn lemma_started_has(fl: Unit, s: Sampler, m: RuntimeModel, order: Seq<NodeId>, k: int, i: int, l: int)
    requires
        0 <= i < k <= order.len(),
        0 <= l < started_by(fl, s, m, order[i]).len(),
    ensures
        started(fl, s, m, order, k).contains(started_by(fl, s, m, order[i])[l]),
    decreases k,
{
    let x = started_by(fl, s, m, order[i])[l];
    let rest = started(fl, s, m, order, k - 1);
    let new = started_by(fl, s, m, order[k - 1]);
    if i == k - 1 {
        assert((rest + new)[rest.len() + l] == x);
    } else {
        lemma_started_has(fl, s, m, order, k - 1, i, l);
        let j = choose|j: int| 0 <= j < rest.len() && rest[j] == x;
        assert((rest + new)[j] == x);
    }
}

proof fn lemma_changes_have(fl: Unit, s: Sampler, m: RuntimeModel, id: NodeId, anim: Animation, k: int, p: int)
    requires
        0 <= p < k <= 6,
        change_of(fl, s, m, id, anim, watched()[p]) is Some,
    ensures
        changes_of(fl, s, m, id, anim, k).contains(change_of(fl, s, m, id, anim, watched()[p])->0),
    decreases k,
{
    let x = change_of(fl, s, m, id, anim, watched()[p])->0;
    let rest = changes_of(fl, s, m, id, anim, k - 1);
    if p == k - 1 {
        assert(rest.push(x)[rest.len() as int] == x);
    } else {
        lemma_changes_have(fl, s, m, id, anim, k - 1, p);
        let j = choose|j: int| 0 <= j < rest.len() && rest[j] == x;
        assert(changes_of(fl, s, m, id, anim, k)[j] == x);
    }
}

proof fn lemma_changes_only(fl: Unit, s: Sampler, m: RuntimeModel, id: NodeId, anim: Animation, k: int)
    requires
        k <= 6,
    ensures
        forall|i: int|
            0 <= i < changes_of(fl, s, m, id, anim, k).len() ==> {
                let e = #[trigger] changes_of(fl, s, m, id, anim, k)[i];
                e.id == id && change_of(fl, s, m, id, anim, e.prop) == Some(e)
            },
    decreases k,
{
    if k > 0 {
        lemma_changes_only(fl, s, m, id, anim, k - 1);
        let rest = changes_of(fl, s, m, id, anim, k - 1);
        let all = changes_of(fl, s, m, id, anim, k);
        assert forall|i: int| 0 <= i < all.len() implies ({
            let e = #[trigger] all[i];
            e.id == id && change_of(fl, s, m, id, anim, e.prop) == Some(e)
        }) by {
            if i < rest.len() {
                assert(all[i] == rest[i]);
            }
        }
    }
}

/// What starts with a property of a node is what its change gives, where no transition does.
proof fn lemma_started_only(fl: Unit, s: Sampler, m: RuntimeModel, order: Seq<NodeId>, k: int, x: EntryModel)
    requires
        0 <= k <= order.len(),
        carried(fl, m.doc.tree.nodes[x.id]) is Some,
        change_of(fl, s, m, x.id, carried(fl, m.doc.tree.nodes[x.id])->0, x.prop) == Some(x),
        x.prop == "opacity"@ ==> transition_of(fl, m, x.id) is None,
    ensures
        forall|i: int|
            0 <= i < started(fl, s, m, order, k).len() && (#[trigger] started(fl, s, m, order, k)[i]).id == x.id
                && started(fl, s, m, order, k)[i].prop == x.prop ==> started(fl, s, m, order, k)[i] == x,
    decreases k,
{
    if k > 0 {
        lemma_started_only(fl, s, m, order, k - 1, x);
        let id = order[k - 1];
        let rest = started(fl, s, m, order, k - 1);
        let new = started_by(fl, s, m, id);
        match carried(fl, m.doc.tree.nodes[id]) {
            Some(anim) => {
                lemma_changes_only(fl, s, m, id, anim, 6);
            },
            None => {},
        }
        let all = started(fl, s, m, order, k);
        assert forall|i: int| 0 <= i < all.len() && (#[trigger] all[i]).id == x.id && all[i].prop == x.prop implies all[i] == x by {
            if i < rest.len() {
                assert(all[i] == rest[i]);
            } else {
                assert(all[i] == new[i - rest.len()]);
            }
        }
    }
}

/// The numbers seen after animations went on, where none moves the property.
proof fn lemma_number_stays(
    fl: Unit,
    s: Sampler,
    es: Seq<EntryModel>,
    dt: u32,
    props: Map<(NodeId, Seq<char>), u32>,
    k: int,
    id: NodeId,
    prop: Seq<char>,
)
    requires
        0 <= k <= es.len(),
        !goes_on(es, id, prop),
    ensures
        moved_numbers(fl, s, es, dt, props, k).dom().contains((id, prop)) == props.dom().contains((id, prop)),
        moved_numbers(fl, s, es, dt, props, k)[(id, prop)] == props[(id, prop)],
    decreases k,
{
    if k > 0 {
        lemma_number_stays(fl, s, es, dt, props, k - 1, id, prop);
        assert(!(es[k - 1].id == id && es[k - 1].prop == prop));
    }
}

/// The number seen after animations went on, where one moves the property.
proof fn lemma_number_moves(
    fl: Unit,
    s: Sampler,
    es: Seq<EntryModel>,
    dt: u32,
    props: Map<(NodeId, Seq<char>), u32>,
    k: int,
    i: int,
)
    requires
        0 <= i < k <= es.len(),
        one_each(es),
    ensures
        moved_numbers(fl, s, es, dt, props, k).dom().contains((es[i].id, es[i].prop)),
        moved_numbers(fl, s, es, dt, props, k)[(es[i].id, es[i].prop)] == shown(fl, s, aged(fl, es[i], dt)),
    decreases k,
{
    if i < k - 1 {
        lemma_number_moves(fl, s, es, dt, props, k - 1, i);
        assert(!(es[i].id == es[k - 1].id && es[i].prop == es[k - 1].prop));
    }
}

/// A property of a node that no value is set on stays as it is.
proof fn lemma_other_value_stays(d: DocModel, ups: Seq<(NodeId, Seq<char>, ValueModel)>, k: int, id: NodeId, prop: Seq<char>)
    requires
        0 <= k <= ups.len(),
        forall|i: int| 0 <= i < ups.len() ==> !((#[trigger] ups[i]).0 == id && ups[i].1 == prop),
        d.tree.nodes.dom().contains(id),
    ensures
        with_values(d, ups, k).tree.nodes.dom().contains(id),
        with_values(d, ups, k).tree.nodes[id].props.dom().contains(prop) == d.tree.nodes[id].props.dom().contains(prop),
        with_values(d, ups, k).tree.nodes[id].props[prop] == d.tree.nodes[id].props[prop],
    decreases k,
{
    if k > 0 {
        lemma_other_value_stays(d, ups, k - 1, id, prop);
        lemma_same_ids(d, ups, k);
        assert(!(ups[k - 1].0 == id && ups[k - 1].1 == prop));
    }
}

proof fn lemma_presented_same(fl: Unit, a: Tree, b: Tree, order: Seq<NodeId>, k: int)
    requires
        0 <= k <= order.len(),
        forall|i: int| 0 <= i < order.len() ==> presented(fl, a.nodes[#[trigger] order[i]]) == presented(fl, b.nodes[order[i]]),
    ensures
        presented_among(fl, a, order, k) == presented_among(fl, b, order, k),
    decreases k,
{
    if k > 0 {
        lemma_presented_same(fl, a, b, order, k - 1);
        assert(presented(fl, a.nodes[order[k - 1]]) == presented(fl, b.nodes[order[k - 1]]));
    }
}

/// A look for changes keeps what goes on orderly.
proof fn lemma_detected_orderly(fl: Unit, s: Sampler, a: RuntimeModel)
    requires
        orderly(a),
    ensures
        orderly(detected(fl, s, a)),
        detected(fl, s, a).doc == a.doc,
{
    let order = walk_order(a.doc.tree);
    let es = started(fl, s, a, order, order.len() as int);
    lemma_begun_one_each(noticed(fl, a), es, es.len() as int);
    lemma_started_watch(fl, s, a, order, order.len() as int);
    lemma_begun_watch(noticed(fl, a), es, es.len() as int);
    lemma_begun_doc(noticed(fl, a), es, es.len() as int);
    lemma_begun_springs(noticed(fl, a), es, es.len() as int);
}

proof fn lemma_begun_springs(m: RuntimeModel, es: Seq<EntryModel>, k: int)
    ensures
        begun(m, es, k).springs == m.springs,
    decreases k,
{
    if k > 0 {
        lemma_begun_springs(m, es, k - 1);
    }
}

/// Without springs, only the animations move.
proof fn lemma_no_springs(g: Stepper, m: RuntimeModel, dt: u32)
    requires
        m.springs.len() == 0,
    ensures
        sprung(g, m, dt) == m,
{
    assert(springs_left(g, m.springs, dt, 0) =~= m.springs);
    assert(sprung(g, m, dt) =~= m);
}

/// After a tick everything stays orderly, and without an edit the next one starts nothing.
proof fn lemma_tick<E: Fn(&Plan) -> Option<Vec<Frame>>>(
    e: E,
    fl: Unit,
    s: Sampler,
    g: Stepper,
    a: RuntimeModel,
    b: RuntimeModel,
    dt: u32,
)
    requires
        orderly(a),
        self_difference_is_small(fl),
        relaid(e, fl, frame(fl, s, g, a, dt), b),
    ensures
        orderly(b),
        started(fl, s, b, walk_order(b.doc.tree), walk_order(b.doc.tree).len() as int).len() == 0,
        b.implicit == crate::motion::moving_left(
            fl,
            detected(fl, s, a).implicit,
            dt,
            detected(fl, s, a).implicit.len() as int,
        ),
        b.doc.tree.nodes.dom() == a.doc.tree.nodes.dom(),
{
    let d = detected(fl, s, a);
    lemma_detected_orderly(fl, s, a);
    lemma_no_springs(g, d, dt);
    let n = d.implicit.len() as int;
    let ups = moved_values(fl, s, d.implicit, dt, n);
    let f = advanced(fl, s, d, dt);
    assert(frame(fl, s, g, a, dt) == f);
    assert(b.doc == f.doc && b.props == f.props && b.present == f.present && b.presented == f.presented && b.springs
        == f.springs && b.implicit == f.implicit);
    lemma_moved_at(fl, s, d.implicit, dt, n);
    lemma_with_values(a.doc, ups, n);
    lemma_same_walk(a.doc.tree, b.doc.tree);
    lemma_same_ids(a.doc, ups, n);
    lemma_left(fl, d.implicit, dt, n);
    let order = walk_order(a.doc.tree);
    assert(walk_order(b.doc.tree) == order);
    assert(watches(b.implicit)) by {
        assert forall|i: int| 0 <= i < b.implicit.len() implies watched().contains((#[trigger] b.implicit[i]).prop) by {
            assert(b.implicit.contains(b.implicit[i]));
            let j = choose|j: int|
                0 <= j < n && b.implicit[i] == aged(fl, #[trigger] d.implicit[j], dt) && !done(b.implicit[i]);
            assert(watched().contains(d.implicit[j].prop));
        }
    }
    assert forall|i: int| 0 <= i < order.len() implies presented(fl, a.doc.tree.nodes[#[trigger] order[i]]) == presented(
        fl,
        b.doc.tree.nodes[order[i]],
    ) by {
        lemma_walk_inside(a.doc.tree, i);
        let id = order[i];
        assert forall|j: int| 0 <= j < ups.len() implies !((#[trigger] ups[j]).0 == id && ups[j].1 == "presented"@) by {
            assert(ups[j].1 == d.implicit[j].prop);
            assert(watched().contains(d.implicit[j].prop));
            let w = choose|w: int| 0 <= w < watched().len() && watched()[w] == d.implicit[j].prop;
            reveal_strlit("presented");
            reveal_strlit("width");
            reveal_strlit("height");
            reveal_strlit("opacity");
            reveal_strlit("x");
            reveal_strlit("y");
            reveal_strlit("corner_radius");
            assert("presented"@.len() == 9);
            assert(watched()[w].len() != 9);
        }
        lemma_other_value_stays(a.doc, ups, n, id, "presented"@);
    }
    lemma_presented_same(fl, a.doc.tree, b.doc.tree, order, order.len() as int);
    assert forall|i: int, p: int|
        0 <= i < order.len() && 0 <= p < 6 && scalar_at(fl, b.doc.tree.nodes[#[trigger] order[i]], #[trigger] watched()[p]) is Some
            && b.props.dom().contains((order[i], watched()[p])) implies scalar_at(
        fl,
        b.doc.tree.nodes[order[i]],
        watched()[p],
    ) == Some(b.props[(order[i], watched()[p])]) by {
        let id = order[i];
        let prop = watched()[p];
        lemma_walk_inside(a.doc.tree, i);
        if goes_on(d.implicit, id, prop) {
            let j = choose|j: int| 0 <= j < n && (#[trigger] d.implicit[j]).id == id && d.implicit[j].prop == prop;
            lemma_number_moves(fl, s, d.implicit, dt, d.props, n, j);
            assert forall|l: int| j < l < n implies !((#[trigger] ups[l]).0 == ups[j].0 && ups[l].1 == ups[j].1) by {
                assert(!(d.implicit[j].id == d.implicit[l].id && d.implicit[j].prop == d.implicit[l].prop));
            }
            lemma_value_stays(a.doc, ups, n, j);
        } else {
            lemma_number_stays(fl, s, d.implicit, dt, d.props, n, id, prop);
            assert forall|j: int| 0 <= j < ups.len() implies !((#[trigger] ups[j]).0 == id && ups[j].1 == prop) by {
                assert(!(d.implicit[j].id == id && d.implicit[j].prop == prop));
            }
            lemma_other_value_stays(a.doc, ups, n, id, prop);
            if prop == "opacity"@ && transition_of(fl, a, id) is Some {
                let all = started_by(fl, s, a, id);
                let es = started(fl, s, a, order, order.len() as int);
                lemma_started_has(fl, s, a, order, order.len() as int, i, all.len() - 1);
                let l = choose|l: int| 0 <= l < es.len() && es[l] == all[all.len() - 1];
                assert(es.take(es.len() as int) =~= es);
                assert(es[l].id == id && es[l].prop == prop);
                assert(goes_on(es.take(es.len() as int), id, prop));
                lemma_begun_goes_on(noticed(fl, a), es, es.len() as int, id, prop);
                assert(goes_on(d.implicit, id, prop));
            }
            law_every_number_is_noticed(fl, s, a, i, p);
        }
    }
    lemma_quiet_in_step(fl, s, b, order.len() as int);
}

proof fn lemma_ticks<E: Fn(&Plan) -> Option<Vec<Frame>>>(
    e: E,
    fl: Unit,
    s: Sampler,
    g: Stepper,
    ms: Seq<RuntimeModel>,
    dts: Seq<u32>,
    n: int,
)
    requires
        ticks(e, fl, s, g, ms, dts),
        orderly(ms[0]),
        self_difference_is_small(fl),
        0 <= n <= dts.len(),
    ensures
        orderly(ms[n]),
        ms[n].doc.tree.nodes.dom() == ms[0].doc.tree.nodes.dom(),
        n > 0 ==> started(fl, s, ms[n], walk_order(ms[n].doc.tree), walk_order(ms[n].doc.tree).len() as int).len() == 0,
    decreases n,
{
    if n > 0 {
        lemma_ticks(e, fl, s, g, ms, dts, n - 1);
        assert(relaid(e, fl, frame(fl, s, g, ms[n - 1], dts[n - 1]), ms[n]));
        lemma_tick(e, fl, s, g, ms[n - 1], ms[n], dts[n - 1]);
    }
}

/// Only an edit starts an animation: after the first of some ticks, which sees what was edited
/// before, the others start nothing.
pub proof fn law_only_edits_start_animations<E: Fn(&Plan) -> Option<Vec<Frame>>>(
    e: E,
    fl: Unit,
    s: Sampler,
    g: Stepper,
    ms: Seq<RuntimeModel>,
    dts: Seq<u32>,
)
    requires
        ticks(e, fl, s, g, ms, dts),
        dts.len() > 0,
        orderly(ms[0]),
        self_difference_is_small(fl),
    ensures
        frames(e, fl, s, g, ms.skip(1), dts.skip(1)),
        forall|n: int| 0 <= n < ms.len() ==> orderly(#[trigger] ms[n]),
{
    let ms1 = ms.skip(1);
    let dts1 = dts.skip(1);
    assert forall|i: int, j: int| 0 <= i < dts1.len() && j == i + 1 implies frame_follows(
        e,
        fl,
        s,
        g,
        #[trigger] ms1[i],
        #[trigger] ms1[j],
        dts1[i],
    ) by {
        lemma_ticks(e, fl, s, g, ms, dts, i + 1);
        assert(relaid(e, fl, frame(fl, s, g, ms[i + 1], dts[i + 1]), ms[j + 1]));
    }
    assert forall|n: int| 0 <= n < ms.len() implies orderly(#[trigger] ms[n]) by {
        lemma_ticks(e, fl, s, g, ms, dts, n);
    }
}

proof fn lemma_aged_on(fl: Unit, x: EntryModel, dts: Seq<u32>, n: int)
    requires
        0 <= n < dts.len(),
    ensures
        aged_by(fl, aged(fl, x, dts[0]), dts.skip(1), n) == aged_by(fl, x, dts, n + 1),
    decreases n,
{
    if n > 0 {
        lemma_aged_on(fl, x, dts, n - 1);
    } else {
        assert(aged_by(fl, x, dts, 0) == x);
    }
}

/// The property of a node that an animation moves.
pub open spec fn value_of(m: RuntimeModel, x: EntryModel) -> Option<ValueModel> {
    if m.doc.tree.nodes.dom().contains(x.id) && m.doc.tree.nodes[x.id].props.dom().contains(x.prop) {
        Some(m.doc.tree.nodes[x.id].props[x.prop])
    } else {
        None
    }
}

/// After a tick a property that an animation moves stands where the animation is.
proof fn lemma_tick_shows<E: Fn(&Plan) -> Option<Vec<Frame>>>(
    e: E,
    fl: Unit,
    s: Sampler,
    g: Stepper,
    a: RuntimeModel,
    b: RuntimeModel,
    dt: u32,
    x: EntryModel,
)
    requires
        orderly(a),
        relaid(e, fl, frame(fl, s, g, a, dt), b),
        detected(fl, s, a).implicit.contains(x),
        a.doc.tree.nodes.dom().contains(x.id),
    ensures
        value_of(b, x) == Some(ValueModel::Px(shown(fl, s, aged(fl, x, dt)))),
{
    let d = detected(fl, s, a);
    lemma_detected_orderly(fl, s, a);
    lemma_no_springs(g, d, dt);
    let n = d.implicit.len() as int;
    let ups = moved_values(fl, s, d.implicit, dt, n);
    lemma_moved_at(fl, s, d.implicit, dt, n);
    let j = choose|j: int| 0 <= j < n && d.implicit[j] == x;
    assert forall|l: int| j < l < n implies !((#[trigger] ups[l]).0 == ups[j].0 && ups[l].1 == ups[j].1) by {
        assert(!(d.implicit[j].id == d.implicit[l].id && d.implicit[j].prop == d.implicit[l].prop));
    }
    lemma_value_stays(a.doc, ups, n, j);
}

/// A change of a watched property of a node that carries an animation is animated from where the
/// property stood to where it was set, tick after tick: as long as the times of the ticks have not
/// added up to the duration the property stands where the curve says and the animation goes on; the
/// tick that completes the duration sets it to the target exactly, and with that nothing goes on
/// with it any more.
#[verifier::rlimit(60)]
#[verifier::spinoff_prover]
pub proof fn law_change_is_animated<E: Fn(&Plan) -> Option<Vec<Frame>>>(
    e: E,
    fl: Unit,
    s: Sampler,
    g: Stepper,
    ms: Seq<RuntimeModel>,
    dts: Seq<u32>,
    i: int,
    p: int,
    x: EntryModel,
    n: int,
)
    requires
        ticks(e, fl, s, g, ms, dts),
        orderly(ms[0]),
        self_difference_is_small(fl),
        0 <= i < walk_order(ms[0].doc.tree).len(),
        0 <= p < 6,
        x.id == walk_order(ms[0].doc.tree)[i],
        carried(fl, ms[0].doc.tree.nodes[x.id]) is Some,
        change_of(fl, s, ms[0], x.id, carried(fl, ms[0].doc.tree.nodes[x.id])->0, watched()[p]) == Some(x),
        x.prop == "opacity"@ ==> transition_of(fl, ms[0], x.id) is None,
        1 <= n <= dts.len(),
    ensures
        scalar_at(fl, ms[0].doc.tree.nodes[x.id], x.prop) == Some(x.to),
        !finished_by(fl, x, dts, n) ==> value_of(ms[n], x) == Some(ValueModel::Px(shown(fl, s, aged_by(fl, x, dts, n))))
            && ms[n].implicit.contains(aged_by(fl, x, dts, n)),
        finished_by(fl, x, dts, n) && !finished_by(fl, x, dts, n - 1) ==> value_of(ms[n], x) == Some(ValueModel::Px(x.to)),
        finished_by(fl, x, dts, n) ==> at_rest(ms[n].implicit, x.id, x.prop),
{
    let a = ms[0];
    let order = walk_order(a.doc.tree);
    let len = order.len() as int;
    let anim = carried(fl, a.doc.tree.nodes[x.id])->0;
    let es = started(fl, s, a, order, len);
    let d = detected(fl, s, a);
    lemma_walk_inside(a.doc.tree, i);
    lemma_changes_have(fl, s, a, x.id, anim, 6, p);
    let mine = started_by(fl, s, a, x.id);
    let l0 = choose|l: int| 0 <= l < changes_of(fl, s, a, x.id, anim, 6).len() && changes_of(fl, s, a, x.id, anim, 6)[l] == x;
    assert(mine[l0] == x);
    lemma_started_has(fl, s, a, order, len, i, l0);
    lemma_started_only(fl, s, a, order, len, x);
    let l1 = choose|l: int| 0 <= l < es.len() && es[l] == x;
    assert(es[l1] == x);
    lemma_begun_has(noticed(fl, a), es, es.len() as int, x);
    assert(d.implicit.contains(x));
    assert(relaid(e, fl, frame(fl, s, g, ms[0], dts[0]), ms[1]));
    lemma_tick(e, fl, s, g, ms[0], ms[1], dts[0]);
    lemma_tick_shows(e, fl, s, g, ms[0], ms[1], dts[0], x);
    lemma_detected_orderly(fl, s, a);
    lemma_left(fl, d.implicit, dts[0], d.implicit.len() as int);
    let j = choose|j: int| 0 <= j < d.implicit.len() && d.implicit[j] == x;
    let x1 = aged(fl, d.implicit[j], dts[0]);
    assert(aged_by(fl, x, dts, 0) == x);
    assert(aged_by(fl, x, dts, 1) == x1);
    law_only_edits_start_animations(e, fl, s, g, ms, dts);
    let ms1 = ms.skip(1);
    let dts1 = dts.skip(1);
    lemma_ticks(e, fl, s, g, ms, dts, n);
    assert(ms1[0] == ms[1]);
    assert(ms1[n - 1] == ms[n]);
    lemma_frames(e, fl, s, g, ms1, dts1, n - 1);
    if n > 1 {
        lemma_aged_on(fl, x, dts, n - 1);
        lemma_ticks(e, fl, s, g, ms, dts, n - 1);
    }
    // Before it is done, the animation goes on.
    if !finished_by(fl, x, dts, n - 1) && n > 1 {
        assert(!done(aged_by(fl, x, dts, 1)));
        assert(!finished_by(fl, x1, dts1, n - 2)) by {
            if finished_by(fl, x1, dts1, n - 2) {
                let k = choose|k: int| 1 <= k <= n - 2 && done(#[trigger] aged_by(fl, x1, dts1, k));
                lemma_aged_on(fl, x, dts, k);
                assert(done(aged_by(fl, x, dts, k + 1)));
            }
        }
        lemma_frames(e, fl, s, g, ms1, dts1, n - 2);
        lemma_aged_on(fl, x, dts, n - 2);
        assert(ms1[0].implicit.contains(x1));
        assert(ms1[n - 2] == ms[n - 1]);
        let y = aged_by(fl, x, dts, n - 1);
        assert(ms[n - 1].implicit.contains(y));
        lemma_same_entry(fl, x, dts, n - 1);
        // Nothing starts in this tick, so what it moves is what went on before.
        assert(frame_follows(e, fl, s, g, ms1[n - 2], ms1[n - 1], dts1[n - 2]));
        assert(detected(fl, s, ms[n - 1]).implicit == ms[n - 1].implicit);
        assert(relaid(e, fl, frame(fl, s, g, ms[n - 1], dts[n - 1]), ms[n]));
        lemma_tick_shows(e, fl, s, g, ms[n - 1], ms[n], dts[n - 1], y);
        assert(aged(fl, y, dts[n - 1]) == aged_by(fl, x, dts, n));
    }
    if !finished_by(fl, x, dts, n) {
        assert(!finished_by(fl, x, dts, n - 1)) by {
            if finished_by(fl, x, dts, n - 1) {
                let k = choose|k: int| 1 <= k <= n - 1 && done(#[trigger] aged_by(fl, x, dts, k));
                assert(done(aged_by(fl, x, dts, k)));
            }
        }
        assert(!done(aged_by(fl, x, dts, 1)));
        assert(ms1[0].implicit.contains(x1));
        assert(!finished_by(fl, x1, dts1, n - 1)) by {
            if finished_by(fl, x1, dts1, n - 1) {
                let k = choose|k: int| 1 <= k <= n - 1 && done(#[trigger] aged_by(fl, x1, dts1, k));
                lemma_aged_on(fl, x, dts, k);
                assert(done(aged_by(fl, x, dts, k + 1)));
            }
        }
    } else {
        if !finished_by(fl, x, dts, n - 1) {
            let k = choose|k: int| 1 <= k <= n && done(#[trigger] aged_by(fl, x, dts, k));
            if k < n {
                assert(finished_by(fl, x, dts, n - 1));
            }
            assert(done(aged_by(fl, x, dts, n)));
            lemma_same_entry(fl, x, dts, n);
        }
        let now = ms[n].implicit;
        assert forall|q: int| 0 <= q < now.len() implies !((#[trigger] now[q]).id == x.id && now[q].prop == x.prop) by {
            assert(now.contains(now[q]));
            let y = choose|y: EntryModel|
                ms1[0].implicit.contains(y) && !finished_by(fl, y, dts1, n - 1) && now[q] == #[trigger] aged_by(
                    fl,
                    y,
                    dts1,
                    n - 1,
                );
            lemma_same_entry(fl, y, dts1, n - 1);
            if y.id == x.id && y.prop == x.prop {
                let r = choose|r: int| 0 <= r < d.implicit.len() && y == aged(fl, #[trigger] d.implicit[r], dts[0]) && !done(y);
                if r != j {
                    assert(!(d.implicit[r].id == d.implicit[j].id && d.implicit[r].prop == d.implicit[j].prop));
                }
                assert(y == x1);
                let k = choose|k: int| 1 <= k <= n && done(#[trigger] aged_by(fl, x, dts, k));
                if k == 1 {
                    assert(done(y));
                } else {
                    lemma_aged_on(fl, x, dts, k - 1);
                    assert(done(aged_by(fl, x1, dts1, k - 1)));
                    assert(finished_by(fl, y, dts1, n - 1));
                }
            }
        }
    }
}

/// The curve of an animation does not turn back in a step: what is shown at a time before the end is
/// at most what is shown the step later.
pub open spec fn rises(fl: Unit, s: Sampler, x: EntryModel, dt: u32) -> bool {
    !done(x) ==> le32(shown(fl, s, x), shown(fl, s, aged(fl, x, dt)))
}

/// Where the curve does not turn back, no tick lowers the property until the animation has taken its
/// time, the last one included.
pub proof fn law_rising_curve_never_lowers<E: Fn(&Plan) -> Option<Vec<Frame>>>(
    e: E,
    fl: Unit,
    s: Sampler,
    g: Stepper,
    ms: Seq<RuntimeModel>,
    dts: Seq<u32>,
    i: int,
    p: int,
    x: EntryModel,
    n: int,
)
    requires
        ticks(e, fl, s, g, ms, dts),
        orderly(ms[0]),
        self_difference_is_small(fl),
        0 <= i < walk_order(ms[0].doc.tree).len(),
        0 <= p < 6,
        x.id == walk_order(ms[0].doc.tree)[i],
        carried(fl, ms[0].doc.tree.nodes[x.id]) is Some,
        change_of(fl, s, ms[0], x.id, carried(fl, ms[0].doc.tree.nodes[x.id])->0, watched()[p]) == Some(x),
        x.prop == "opacity"@ ==> transition_of(fl, ms[0], x.id) is None,
        1 <= n < dts.len(),
        !finished_by(fl, x, dts, n),
        rises(fl, s, aged_by(fl, x, dts, n), dts[n]),
    ensures
        value_of(ms[n], x) matches Some(ValueModel::Px(before)) && value_of(ms[n + 1], x) matches Some(ValueModel::Px(after))
            && le32(before, after),
{
    law_change_is_animated(e, fl, s, g, ms, dts, i, p, x, n);
    law_change_is_animated(e, fl, s, g, ms, dts, i, p, x, n + 1);
    assert(!done(aged_by(fl, x, dts, n)));
    lemma_same_entry(fl, x, dts, n + 1);
    if finished_by(fl, x, dts, n + 1) {
        let k = choose|k: int| 1 <= k <= n + 1 && done(#[trigger] aged_by(fl, x, dts, k));
        if k <= n {
            assert(finished_by(fl, x, dts, n));
        }
        assert(done(aged_by(fl, x, dts, n + 1)));
    }
}

} // verus!
