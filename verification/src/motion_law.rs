//! What holds of the motion of every live interface.
use vstd::prelude::*;

use crate::animation::{carried, done, presented, scalar_at, shown, Animation, EntryModel, Sampler};
use crate::float::{abs32, lt32, sub32, Unit};
use crate::ir::{DocModel, Origin, Tree};
use crate::layout::{Frame, Plan};
use crate::motion::{
    aged, begun, change_of, changes_of, detected, frame, in_flight, moved_values, moving_left, node_numbers, noticed, numbers,
    presented_among, seeded, spring_values, sprung, started, started_by, transition_of, watched, without, Stepper,
    LEAST_CHANGE,
};
use crate::node::NodeId;
use crate::runtime::{relaid, with_values, RuntimeModel};
use crate::value::ValueModel;
use crate::walk::walk_order;

verus! {

/// A node that carries no animation and neither came to be presented nor ceased to be starts
/// nothing, whatever its properties are: changes show at once.
pub proof fn law_unanimated_change_is_instant(fl: Unit, s: Sampler, m: RuntimeModel, id: NodeId)
    requires
        carried(fl, m.doc.tree.nodes[id]) is None,
        presented(fl, m.doc.tree.nodes[id]) == m.presented.contains(id),
        m.presented.contains(id) ==> m.present.contains(id),
    ensures
        started_by(fl, s, m, id) == Seq::<EntryModel>::empty(),
{
    assert(started_by(fl, s, m, id) =~= Seq::<EntryModel>::empty());
}

/// A change of a property that is being animated goes on from where the property stands, not
/// from where the animation began.
pub proof fn law_change_redirects_from_shown(
    fl: Unit,
    s: Sampler,
    m: RuntimeModel,
    id: NodeId,
    anim: Animation,
    prop: Seq<char>,
    e: EntryModel,
)
    requires
        in_flight(m.implicit, id, prop, 0) == Some(e),
        change_of(fl, s, m, id, anim, prop) is Some,
    ensures
        (change_of(fl, s, m, id, anim, prop)->0).from == shown(fl, s, e),
        scalar_at(fl, m.doc.tree.nodes[id], prop) == Some((change_of(fl, s, m, id, anim, prop)->0).to),
        (change_of(fl, s, m, id, anim, prop)->0).elapsed == 0,
{
}

/// An animation that has taken its time sets its property to its target, and none of those that
/// go on has taken its time.
pub proof fn law_finished_lands_and_leaves(fl: Unit, s: Sampler, es: Seq<EntryModel>, dt: u32, k: int, i: int)
    requires
        0 <= i < k <= es.len(),
    ensures
        moved_values(fl, s, es, dt, k).len() == k,
        done(aged(fl, es[i], dt)) ==> moved_values(fl, s, es, dt, k)[i] == (
            es[i].id,
            es[i].prop,
            ValueModel::Px(es[i].to),
        ),
        forall|j: int| 0 <= j < moving_left(fl, es, dt, k).len() ==> !done(#[trigger] moving_left(fl, es, dt, k)[j]),
    decreases k,
{
    if i < k - 1 {
        law_finished_lands_and_leaves(fl, s, es, dt, k - 1, i);
    } else {
        lemma_left_not_done(fl, es, dt, k);
        lemma_moved_len(fl, s, es, dt, k - 1);
    }
    lemma_left_not_done(fl, es, dt, k);
}

proof fn lemma_moved_len(fl: Unit, s: Sampler, es: Seq<EntryModel>, dt: u32, k: int)
    requires
        0 <= k <= es.len(),
    ensures
        moved_values(fl, s, es, dt, k).len() == k,
    decreases k,
{
    if k > 0 {
        lemma_moved_len(fl, s, es, dt, k - 1);
    }
}

pub proof fn lemma_left_not_done(fl: Unit, es: Seq<EntryModel>, dt: u32, k: int)
    requires
        0 <= k <= es.len(),
    ensures
        forall|j: int| 0 <= j < moving_left(fl, es, dt, k).len() ==> !done(#[trigger] moving_left(fl, es, dt, k)[j]),
    decreases k,
{
    if k > 0 {
        lemma_left_not_done(fl, es, dt, k - 1);
        let before = moving_left(fl, es, dt, k - 1);
        let now = moving_left(fl, es, dt, k);
        assert forall|j: int| 0 <= j < now.len() implies !done(#[trigger] now[j]) by {
            if j < before.len() {
                assert(now[j] == before[j]);
            }
        }
    }
}

/// The unit takes a number from itself to nothing that counts as a change.
pub open spec fn self_difference_is_small(fl: Unit) -> bool {
    forall|v: u32| !lt32(LEAST_CHANGE, abs32(#[trigger] sub32(fl, v, v)))
}

/// The numbers seen of a node are those it has.
spec fn seen_as_is(fl: Unit, t: Tree, props: Map<(NodeId, Seq<char>), u32>) -> bool {
    forall|id: NodeId, p: Seq<char>| #[trigger] props.dom().contains((id, p)) ==> scalar_at(fl, t.nodes[id], p) == Some(
        props[(id, p)],
    )
}

proof fn lemma_node_seen(fl: Unit, t: Tree, props: Map<(NodeId, Seq<char>), u32>, id: NodeId, k: int)
    requires
        seen_as_is(fl, t, props),
    ensures
        seen_as_is(fl, t, node_numbers(fl, props, id, t.nodes[id], k)),
    decreases k,
{
    if k > 0 {
        lemma_node_seen(fl, t, props, id, k - 1);
    }
}

proof fn lemma_seen(fl: Unit, t: Tree, order: Seq<NodeId>, k: int)
    ensures
        seen_as_is(fl, t, numbers(fl, Map::empty(), t, order, k)),
    decreases k,
{
    if k > 0 {
        lemma_seen(fl, t, order, k - 1);
        lemma_node_seen(fl, t, numbers(fl, Map::empty(), t, order, k - 1), order[k - 1], 6);
    }
}

/// The numbers seen of a node hold each that it has.
spec fn seen_whole(fl: Unit, t: Tree, props: Map<(NodeId, Seq<char>), u32>, id: NodeId) -> bool {
    forall|i: int|
        0 <= i < 6 && scalar_at(fl, t.nodes[id], #[trigger] watched()[i]) is Some ==> props.dom().contains(
            (id, watched()[i]),
        )
}

proof fn lemma_node_whole(fl: Unit, t: Tree, props: Map<(NodeId, Seq<char>), u32>, id: NodeId, k: int)
    requires
        0 <= k <= 6,
    ensures
        forall|x: (NodeId, Seq<char>)| #[trigger]
            props.dom().contains(x) ==> node_numbers(fl, props, id, t.nodes[id], k).dom().contains(x),
        forall|i: int|
            0 <= i < k && scalar_at(fl, t.nodes[id], #[trigger] watched()[i]) is Some ==> node_numbers(
                fl,
                props,
                id,
                t.nodes[id],
                k,
            ).dom().contains((id, watched()[i])),
    decreases k,
{
    if k > 0 {
        lemma_node_whole(fl, t, props, id, k - 1);
    }
}

proof fn lemma_seen_whole(fl: Unit, t: Tree, order: Seq<NodeId>, k: int)
    requires
        0 <= k <= order.len(),
    ensures
        forall|j: int| 0 <= j < k ==> seen_whole(fl, t, numbers(fl, Map::empty(), t, order, k), #[trigger] order[j]),
    decreases k,
{
    if k > 0 {
        lemma_seen_whole(fl, t, order, k - 1);
        lemma_node_whole(fl, t, numbers(fl, Map::empty(), t, order, k - 1), order[k - 1], 6);
    }
}

/// To see what was seen changes nothing.
proof fn lemma_node_again(fl: Unit, t: Tree, props: Map<(NodeId, Seq<char>), u32>, id: NodeId, k: int)
    requires
        0 <= k <= 6,
        seen_as_is(fl, t, props),
        seen_whole(fl, t, props, id),
    ensures
        node_numbers(fl, props, id, t.nodes[id], k) == props,
    decreases k,
{
    if k > 0 {
        lemma_node_again(fl, t, props, id, k - 1);
        let p = watched()[k - 1];
        match scalar_at(fl, t.nodes[id], p) {
            Some(v) => {
                assert(props.dom().contains((id, p)));
                assert(props.insert((id, p), v) =~= props);
            },
            None => {},
        }
    }
}

proof fn lemma_again(fl: Unit, t: Tree, props: Map<(NodeId, Seq<char>), u32>, order: Seq<NodeId>, k: int)
    requires
        0 <= k <= order.len(),
        seen_as_is(fl, t, props),
        forall|j: int| 0 <= j < order.len() ==> seen_whole(fl, t, props, #[trigger] order[j]),
    ensures
        numbers(fl, props, t, order, k) == props,
    decreases k,
{
    if k > 0 {
        lemma_again(fl, t, props, order, k - 1);
        lemma_node_again(fl, t, props, order[k - 1], 6);
    }
}

/// Of some animations, those of a property of a node have a number as their target.
spec fn all_head_for(es: Seq<EntryModel>, id: NodeId, prop: Seq<char>, v: u32) -> bool {
    forall|i: int| 0 <= i < es.len() && (#[trigger] es[i]).id == id && es[i].prop == prop ==> es[i].to == v
}

proof fn lemma_changes_head_for(
    fl: Unit,
    s: Sampler,
    m: RuntimeModel,
    x: NodeId,
    anim: Animation,
    k: int,
    id: NodeId,
    prop: Seq<char>,
)
    requires
        scalar_at(fl, m.doc.tree.nodes[id], prop) is Some,
    ensures
        all_head_for(changes_of(fl, s, m, x, anim, k), id, prop, scalar_at(fl, m.doc.tree.nodes[id], prop)->0),
    decreases k,
{
    if k > 0 {
        lemma_changes_head_for(fl, s, m, x, anim, k - 1, id, prop);
    }
}

proof fn lemma_started_head_for(
    fl: Unit,
    s: Sampler,
    m: RuntimeModel,
    order: Seq<NodeId>,
    k: int,
    id: NodeId,
    prop: Seq<char>,
)
    requires
        0 <= k <= order.len(),
        scalar_at(fl, m.doc.tree.nodes[id], prop) is Some,
        prop == "opacity"@ ==> transition_of(fl, m, id) is None,
    ensures
        all_head_for(started(fl, s, m, order, k), id, prop, scalar_at(fl, m.doc.tree.nodes[id], prop)->0),
    decreases k,
{
    if k > 0 {
        lemma_started_head_for(fl, s, m, order, k - 1, id, prop);
        let x = order[k - 1];
        let v = scalar_at(fl, m.doc.tree.nodes[id], prop)->0;
        match carried(fl, m.doc.tree.nodes[x]) {
            Some(anim) => {
                lemma_changes_head_for(fl, s, m, x, anim, 6, id, prop);
            },
            None => {},
        }
        assert(all_head_for(started_by(fl, s, m, x), id, prop, v));
    }
}

proof fn lemma_begun_noted(m: RuntimeModel, es: Seq<EntryModel>, k: int, id: NodeId, prop: Seq<char>, v: u32)
    requires
        0 <= k <= es.len(),
        m.props.dom().contains((id, prop)),
        m.props[(id, prop)] == v,
        all_head_for(es, id, prop, v),
    ensures
        begun(m, es, k).props.dom().contains((id, prop)),
        begun(m, es, k).props[(id, prop)] == v,
    decreases k,
{
    if k > 0 {
        lemma_begun_noted(m, es, k - 1, id, prop, v);
    }
}

/// What a look for changes has seen is what there is: a watched property of a node that is there has
/// its number noted, so that the next change of it counts from there, whether the node was there
/// before or carried an animation or not. The opacity of a node that comes to be presented or ceases
/// to be is the one exception: there the target of the transition is noted.
pub proof fn law_every_number_is_noticed(fl: Unit, s: Sampler, m: RuntimeModel, i: int, p: int)
    requires
        0 <= i < walk_order(m.doc.tree).len(),
        0 <= p < 6,
        scalar_at(fl, m.doc.tree.nodes[walk_order(m.doc.tree)[i]], watched()[p]) is Some,
        watched()[p] == "opacity"@ ==> transition_of(fl, m, walk_order(m.doc.tree)[i]) is None,
    ensures
        detected(fl, s, m).props.dom().contains((walk_order(m.doc.tree)[i], watched()[p])),
        detected(fl, s, m).props[(walk_order(m.doc.tree)[i], watched()[p])] == scalar_at(
            fl,
            m.doc.tree.nodes[walk_order(m.doc.tree)[i]],
            watched()[p],
        )->0,
{
    let t = m.doc.tree;
    let order = walk_order(t);
    let n = order.len() as int;
    let es = started(fl, s, m, order, n);
    lemma_noted(fl, t, m.props, order, n, i, p);
    lemma_started_head_for(fl, s, m, order, n, order[i], watched()[p]);
    lemma_begun_noted(
        noticed(fl, m),
        es,
        es.len() as int,
        order[i],
        watched()[p],
        scalar_at(fl, t.nodes[order[i]], watched()[p])->0,
    );
}

proof fn lemma_node_noted(fl: Unit, t: Tree, props: Map<(NodeId, Seq<char>), u32>, id: NodeId, k: int, x: NodeId, p: int)
    requires
        0 <= k <= 6,
        0 <= p < 6,
        scalar_at(fl, t.nodes[x], watched()[p]) is Some,
        (x == id && p < k) || (props.dom().contains((x, watched()[p])) && props[(x, watched()[p])] == scalar_at(
            fl,
            t.nodes[x],
            watched()[p],
        )->0),
    ensures
        node_numbers(fl, props, id, t.nodes[id], k).dom().contains((x, watched()[p])),
        node_numbers(fl, props, id, t.nodes[id], k)[(x, watched()[p])] == scalar_at(fl, t.nodes[x], watched()[p])->0,
    decreases k,
{
    if k > 0 {
        if !(x == id && p == k - 1) {
            lemma_node_noted(fl, t, props, id, k - 1, x, p);
        }
    }
}

proof fn lemma_noted(
    fl: Unit,
    t: Tree,
    props: Map<(NodeId, Seq<char>), u32>,
    order: Seq<NodeId>,
    k: int,
    i: int,
    p: int,
)
    requires
        0 <= i < k <= order.len(),
        0 <= p < 6,
        scalar_at(fl, t.nodes[order[i]], watched()[p]) is Some,
    ensures
        numbers(fl, props, t, order, k).dom().contains((order[i], watched()[p])),
        numbers(fl, props, t, order, k)[(order[i], watched()[p])] == scalar_at(fl, t.nodes[order[i]], watched()[p])->0,
    decreases k,
{
    if i < k - 1 {
        lemma_noted(fl, t, props, order, k - 1, i, p);
    }
    lemma_node_noted(fl, t, numbers(fl, props, t, order, k - 1), order[k - 1], 6, order[i], p);
}

pub proof fn lemma_presented_among(fl: Unit, t: Tree, order: Seq<NodeId>, k: int)
    requires
        0 <= k <= order.len(),
    ensures
        forall|id: NodeId| #[trigger] presented_among(fl, t, order, k).contains(id) ==> presented(fl, t.nodes[id]),
        forall|i: int|
            0 <= i < k && presented(fl, t.nodes[#[trigger] order[i]]) ==> presented_among(fl, t, order, k).contains(
                order[i],
            ),
    decreases k,
{
    if k > 0 {
        lemma_presented_among(fl, t, order, k - 1);
        let before = presented_among(fl, t, order, k - 1);
        let now = presented_among(fl, t, order, k);
        assert forall|id: NodeId| #[trigger] now.contains(id) implies presented(fl, t.nodes[id]) by {
            if id != order[k - 1] {
                assert(before.contains(id));
            }
        }
    }
}

proof fn lemma_no_changes(fl: Unit, s: Sampler, m: RuntimeModel, id: NodeId, anim: Animation, k: int)
    requires
        self_difference_is_small(fl),
        seen_as_is(fl, m.doc.tree, m.props),
    ensures
        changes_of(fl, s, m, id, anim, k).len() == 0,
    decreases k,
{
    if k > 0 {
        lemma_no_changes(fl, s, m, id, anim, k - 1);
        let p = watched()[k - 1];
        if m.props.dom().contains((id, p)) {
            let v = m.props[(id, p)];
            assert(scalar_at(fl, m.doc.tree.nodes[id], p) == Some(v));
            assert(!lt32(LEAST_CHANGE, abs32(sub32(fl, v, v))));
        }
    }
}

proof fn lemma_none_started(fl: Unit, s: Sampler, m: RuntimeModel, order: Seq<NodeId>, k: int)
    requires
        0 <= k <= order.len(),
        self_difference_is_small(fl),
        seen_as_is(fl, m.doc.tree, m.props),
        m.present == order.to_set(),
        m.presented == presented_among(fl, m.doc.tree, order, order.len() as int),
    ensures
        started(fl, s, m, order, k).len() == 0,
    decreases k,
{
    if k > 0 {
        lemma_none_started(fl, s, m, order, k - 1);
        let id = order[k - 1];
        lemma_presented_among(fl, m.doc.tree, order, order.len() as int);
        assert(order.to_set().contains(id));
        match carried(fl, m.doc.tree.nodes[id]) {
            Some(anim) => {
                lemma_no_changes(fl, s, m, id, anim, 6);
            },
            None => {},
        }
        assert(transition_of(fl, m, id) is None);
        assert(started_by(fl, s, m, id).len() == 0);
    }
}

/// Right after everything was taken as seen, a look for changes finds none: only what changes
/// from there on moves.
pub proof fn law_seeded_is_quiet(fl: Unit, s: Sampler, m: RuntimeModel)
    requires
        self_difference_is_small(fl),
    ensures
        detected(fl, s, seeded(fl, m)) == seeded(fl, m),
{
    let b = seeded(fl, m);
    let order = walk_order(m.doc.tree);
    let n = order.len() as int;
    lemma_seen(fl, m.doc.tree, order, n);
    lemma_seen_whole(fl, m.doc.tree, order, n);
    lemma_again(fl, m.doc.tree, b.props, order, n);
    lemma_none_started(fl, s, b, order, n);
    assert(detected(fl, s, b) =~= b);
}

/// At most one animation goes on with each property of a node.
pub open spec fn one_each(es: Seq<EntryModel>) -> bool {
    forall|i: int, j: int|
        0 <= i < es.len() && 0 <= j < es.len() && i != j ==> !((#[trigger] es[i]).id == (#[trigger] es[j]).id
            && es[i].prop == es[j].prop)
}

/// Nothing goes on with a property of a node.
pub open spec fn at_rest(es: Seq<EntryModel>, id: NodeId, prop: Seq<char>) -> bool {
    forall|i: int| 0 <= i < es.len() ==> !((#[trigger] es[i]).id == id && es[i].prop == prop)
}

pub proof fn lemma_without(es: Seq<EntryModel>, id: NodeId, prop: Seq<char>)
    requires
        one_each(es),
    ensures
        one_each(without(es, id, prop)),
        at_rest(without(es, id, prop), id, prop),
        forall|x: EntryModel| #[trigger] without(es, id, prop).contains(x) ==> es.contains(x),
    decreases es.len(),
{
    reveal(Seq::filter);
    if es.len() > 0 {
        let d = es.drop_last();
        assert(one_each(d)) by {
            assert forall|i: int, j: int| 0 <= i < d.len() && 0 <= j < d.len() && i != j implies !((#[trigger] d[i]).id
                == (#[trigger] d[j]).id && d[i].prop == d[j].prop) by {
                assert(es[i].id == d[i].id && es[j].id == d[j].id);
            }
        }
        lemma_without(d, id, prop);
        let w = without(d, id, prop);
        let r = without(es, id, prop);
        let e = es.last();
        assert(es[es.len() - 1] == e);
        assert forall|x: EntryModel| #[trigger] r.contains(x) implies es.contains(x) by {
            let k = choose|k: int| 0 <= k < r.len() && r[k] == x;
            if k < w.len() {
                assert(w[k] == x);
                assert(w.contains(x));
                let l = choose|l: int| 0 <= l < d.len() && d[l] == x;
                assert(es[l] == x);
            } else {
                assert(es[es.len() - 1] == x);
            }
        }
        assert forall|i: int, j: int| 0 <= i < r.len() && 0 <= j < r.len() && i != j implies !((#[trigger] r[i]).id
            == (#[trigger] r[j]).id && r[i].prop == r[j].prop) by {
            if i < w.len() && j < w.len() {
                assert(r[i] == w[i] && r[j] == w[j]);
            } else {
                let k = if i < w.len() {
                    i
                } else {
                    j
                };
                assert(r[k] == w[k]);
                assert(w.contains(w[k]));
                let l = choose|l: int| 0 <= l < d.len() && d[l] == w[k];
                assert(!(es[l].id == es[es.len() - 1].id && es[l].prop == es[es.len() - 1].prop));
            }
        }
        assert forall|i: int| 0 <= i < r.len() implies !((#[trigger] r[i]).id == id && r[i].prop == prop) by {
            if i < w.len() {
                assert(r[i] == w[i]);
            }
        }
    }
}

pub proof fn lemma_begun_one_each(m: RuntimeModel, es: Seq<EntryModel>, k: int)
    requires
        one_each(m.implicit),
    ensures
        one_each(begun(m, es, k).implicit),
    decreases k,
{
    if k > 0 {
        lemma_begun_one_each(m, es, k - 1);
        let b = begun(m, es, k - 1).implicit;
        let e = es[k - 1];
        lemma_without(b, e.id, e.prop);
        let w = without(b, e.id, e.prop);
        let r = w.push(e);
        assert forall|i: int, j: int| 0 <= i < r.len() && 0 <= j < r.len() && i != j implies !((#[trigger] r[i]).id
            == (#[trigger] r[j]).id && r[i].prop == r[j].prop) by {
            if i < w.len() && j < w.len() {
                assert(r[i] == w[i] && r[j] == w[j]);
            } else if i < w.len() {
                assert(r[i] == w[i]);
            } else {
                assert(r[j] == w[j]);
            }
        }
    }
}

/// The animations that go on are those that have not taken their time, each that much older.
pub proof fn lemma_left(fl: Unit, es: Seq<EntryModel>, dt: u32, k: int)
    requires
        0 <= k <= es.len(),
        one_each(es),
    ensures
        one_each(moving_left(fl, es, dt, k)),
        forall|x: EntryModel| #[trigger]
            moving_left(fl, es, dt, k).contains(x) ==> exists|i: int|
                0 <= i < k && x == aged(fl, #[trigger] es[i], dt) && !done(x),
        forall|i: int|
            0 <= i < k && !done(aged(fl, #[trigger] es[i], dt)) ==> moving_left(fl, es, dt, k).contains(
                aged(fl, es[i], dt),
            ),
    decreases k,
{
    if k > 0 {
        lemma_left(fl, es, dt, k - 1);
        let w = moving_left(fl, es, dt, k - 1);
        let r = moving_left(fl, es, dt, k);
        let e = aged(fl, es[k - 1], dt);
        assert forall|x: EntryModel| #[trigger] r.contains(x) implies exists|i: int|
            0 <= i < k && x == aged(fl, #[trigger] es[i], dt) && !done(x) by {
            let l = choose|l: int| 0 <= l < r.len() && r[l] == x;
            if l < w.len() {
                assert(w[l] == x);
                assert(w.contains(x));
                let i = choose|i: int| 0 <= i < k - 1 && x == aged(fl, #[trigger] es[i], dt) && !done(x);
                assert(x == aged(fl, es[i], dt));
            } else {
                assert(x == aged(fl, es[k - 1], dt));
            }
        }
        assert forall|i: int| 0 <= i < k && !done(aged(fl, #[trigger] es[i], dt)) implies r.contains(
            aged(fl, es[i], dt),
        ) by {
            if i < k - 1 {
                let x = aged(fl, es[i], dt);
                assert(w.contains(x));
                let l = choose|l: int| 0 <= l < w.len() && w[l] == x;
                assert(r[l] == x);
            } else {
                assert(r[w.len() as int] == e);
            }
        }
        assert forall|i: int, j: int| 0 <= i < r.len() && 0 <= j < r.len() && i != j implies !((#[trigger] r[i]).id
            == (#[trigger] r[j]).id && r[i].prop == r[j].prop) by {
            if i < w.len() && j < w.len() {
                assert(r[i] == w[i] && r[j] == w[j]);
            } else {
                let a = if i < w.len() {
                    i
                } else {
                    j
                };
                assert(r[a] == w[a]);
                assert(w.contains(w[a]));
                let l = choose|l: int| 0 <= l < k - 1 && w[a] == aged(fl, #[trigger] es[l], dt) && !done(w[a]);
                assert(!(es[l].id == es[k - 1].id && es[l].prop == es[k - 1].prop));
            }
        }
    }
}

/// A frame keeps it at one animation for each property: what changes while it moves is redirected,
/// not moved twice.
pub proof fn law_one_animation_each(fl: Unit, s: Sampler, g: Stepper, m: RuntimeModel, dt: u32)
    requires
        one_each(m.implicit),
    ensures
        one_each(frame(fl, s, g, m, dt).implicit),
{
    let order = walk_order(m.doc.tree);
    let es = started(fl, s, m, order, order.len() as int);
    lemma_begun_one_each(noticed(fl, m), es, es.len() as int);
    let d = detected(fl, s, m);
    lemma_left(fl, d.implicit, dt, d.implicit.len() as int);
}

/// An animation after the first `n` of some times.
pub open spec fn aged_by(fl: Unit, e: EntryModel, dts: Seq<u32>, n: int) -> EntryModel
    decreases n,
{
    if n <= 0 {
        e
    } else {
        aged(fl, aged_by(fl, e, dts, n - 1), dts[n - 1])
    }
}

/// The animation has taken its time within the first `n` of some times.
pub open spec fn finished_by(fl: Unit, e: EntryModel, dts: Seq<u32>, n: int) -> bool {
    exists|j: int| 1 <= j <= n && done(#[trigger] aged_by(fl, e, dts, j))
}

/// `b` may be `a` after a frame in which no animation starts.
pub open spec fn frame_follows<E: Fn(&Plan) -> Option<Vec<Frame>>>(
    e: E,
    fl: Unit,
    s: Sampler,
    g: Stepper,
    a: RuntimeModel,
    b: RuntimeModel,
    dt: u32,
) -> bool {
    let order = walk_order(a.doc.tree);
    &&& started(fl, s, a, order, order.len() as int).len() == 0
    &&& relaid(e, fl, frame(fl, s, g, a, dt), b)
}

/// The interface goes through the states in frames of the given times, in which no animation
/// starts.
pub open spec fn frames<E: Fn(&Plan) -> Option<Vec<Frame>>>(
    e: E,
    fl: Unit,
    s: Sampler,
    g: Stepper,
    ms: Seq<RuntimeModel>,
    dts: Seq<u32>,
) -> bool {
    &&& ms.len() == dts.len() + 1
    &&& forall|i: int, j: int|
        0 <= i < dts.len() && j == i + 1 ==> frame_follows(e, fl, s, g, #[trigger] ms[i], #[trigger] ms[j], dts[i])
}

pub proof fn lemma_frames<E: Fn(&Plan) -> Option<Vec<Frame>>>(
    e: E,
    fl: Unit,
    s: Sampler,
    g: Stepper,
    ms: Seq<RuntimeModel>,
    dts: Seq<u32>,
    n: int,
)
    requires
        frames(e, fl, s, g, ms, dts),
        one_each(ms[0].implicit),
        0 <= n <= dts.len(),
    ensures
        one_each(ms[n].implicit),
        n > 0 ==> ms[n].implicit == moving_left(fl, ms[n - 1].implicit, dts[n - 1], ms[n - 1].implicit.len() as int),
        forall|x: EntryModel|
            #![trigger ms[0].implicit.contains(x)]
            ms[0].implicit.contains(x) && !finished_by(fl, x, dts, n) ==> ms[n].implicit.contains(
                aged_by(fl, x, dts, n),
            ),
        forall|y: EntryModel| #[trigger]
            ms[n].implicit.contains(y) ==> exists|x: EntryModel|
                ms[0].implicit.contains(x) && !finished_by(fl, x, dts, n) && y == #[trigger] aged_by(fl, x, dts, n),
    decreases n,
{
    if n == 0 {
        assert forall|y: EntryModel| #[trigger] ms[0].implicit.contains(y) implies exists|x: EntryModel|
            ms[0].implicit.contains(x) && !finished_by(fl, x, dts, 0) && y == #[trigger] aged_by(fl, x, dts, 0) by {
            assert(y == aged_by(fl, y, dts, 0));
        }
    } else {
        lemma_frames(e, fl, s, g, ms, dts, n - 1);
        let a = ms[n - 1];
        let b = ms[n];
        let dt = dts[n - 1];
        assert(frame_follows(e, fl, s, g, ms[n - 1], ms[n], dt));
        assert(b.implicit == moving_left(fl, a.implicit, dt, a.implicit.len() as int));
        lemma_left(fl, a.implicit, dt, a.implicit.len() as int);
        assert forall|x: EntryModel|
            #![trigger ms[0].implicit.contains(x)]
            ms[0].implicit.contains(x) && !finished_by(fl, x, dts, n) implies b.implicit.contains(
            aged_by(fl, x, dts, n),
        ) by {
            assert(!finished_by(fl, x, dts, n - 1)) by {
                if finished_by(fl, x, dts, n - 1) {
                    let j = choose|j: int| 1 <= j <= n - 1 && done(#[trigger] aged_by(fl, x, dts, j));
                    assert(done(aged_by(fl, x, dts, j)));
                }
            }
            let y = aged_by(fl, x, dts, n - 1);
            assert(a.implicit.contains(y));
            let i = choose|i: int| 0 <= i < a.implicit.len() && a.implicit[i] == y;
            assert(!done(aged_by(fl, x, dts, n)));
            assert(aged(fl, a.implicit[i], dt) == aged_by(fl, x, dts, n));
        }
        assert forall|y: EntryModel| #[trigger] b.implicit.contains(y) implies exists|x: EntryModel|
            ms[0].implicit.contains(x) && !finished_by(fl, x, dts, n) && y == #[trigger] aged_by(fl, x, dts, n) by {
            let i = choose|i: int| 0 <= i < a.implicit.len() && y == aged(fl, #[trigger] a.implicit[i], dt) && !done(y);
            let z = a.implicit[i];
            assert(a.implicit.contains(z));
            let x = choose|x: EntryModel|
                ms[0].implicit.contains(x) && !finished_by(fl, x, dts, n - 1) && z == #[trigger] aged_by(
                    fl,
                    x,
                    dts,
                    n - 1,
                );
            assert(y == aged_by(fl, x, dts, n));
            if finished_by(fl, x, dts, n) {
                let j = choose|j: int| 1 <= j <= n && done(#[trigger] aged_by(fl, x, dts, j));
                if j < n {
                    assert(finished_by(fl, x, dts, n - 1));
                }
            }
        }
    }
}

pub proof fn lemma_same_entry(fl: Unit, e: EntryModel, dts: Seq<u32>, n: int)
    ensures
        aged_by(fl, e, dts, n).id == e.id,
        aged_by(fl, e, dts, n).prop == e.prop,
        aged_by(fl, e, dts, n).to == e.to,
        aged_by(fl, e, dts, n).anim == e.anim,
    decreases n,
{
    if n > 0 {
        lemma_same_entry(fl, e, dts, n - 1);
    }
}

/// An animation goes on as long as the times of the frames have not added up to its duration; once
/// they have, nothing goes on with its property any more.
pub proof fn law_animation_takes_its_time<E: Fn(&Plan) -> Option<Vec<Frame>>>(
    e: E,
    fl: Unit,
    s: Sampler,
    g: Stepper,
    ms: Seq<RuntimeModel>,
    dts: Seq<u32>,
    x: EntryModel,
    n: int,
)
    requires
        frames(e, fl, s, g, ms, dts),
        one_each(ms[0].implicit),
        ms[0].implicit.contains(x),
        0 <= n <= dts.len(),
    ensures
        !finished_by(fl, x, dts, n) ==> ms[n].implicit.contains(aged_by(fl, x, dts, n)),
        finished_by(fl, x, dts, n) ==> at_rest(ms[n].implicit, x.id, x.prop),
{
    lemma_frames(e, fl, s, g, ms, dts, n);
    if finished_by(fl, x, dts, n) {
        let es = ms[n].implicit;
        assert forall|i: int| 0 <= i < es.len() implies !((#[trigger] es[i]).id == x.id && es[i].prop == x.prop) by {
            assert(es.contains(es[i]));
            let y = choose|y: EntryModel|
                ms[0].implicit.contains(y) && !finished_by(fl, y, dts, n) && es[i] == #[trigger] aged_by(fl, y, dts, n);
            lemma_same_entry(fl, y, dts, n);
            let first = ms[0].implicit;
            let a = choose|a: int| 0 <= a < first.len() && first[a] == x;
            let b = choose|b: int| 0 <= b < first.len() && first[b] == y;
            if a != b {
                assert(!(first[a].id == first[b].id && first[a].prop == first[b].prop));
            }
        }
    }
}

/// Where every animation has taken its time, none is left: motion comes to rest.
pub proof fn law_motion_comes_to_rest<E: Fn(&Plan) -> Option<Vec<Frame>>>(
    e: E,
    fl: Unit,
    s: Sampler,
    g: Stepper,
    ms: Seq<RuntimeModel>,
    dts: Seq<u32>,
    n: int,
)
    requires
        frames(e, fl, s, g, ms, dts),
        one_each(ms[0].implicit),
        0 <= n <= dts.len(),
        forall|x: EntryModel| #[trigger] ms[0].implicit.contains(x) ==> finished_by(fl, x, dts, n),
    ensures
        ms[n].implicit.len() == 0,
{
    lemma_frames(e, fl, s, g, ms, dts, n);
    let es = ms[n].implicit;
    if es.len() > 0 {
        assert(es.contains(es[0]));
    }
}

/// The property of a node after values were set, where no later one is set on it.
pub proof fn lemma_value_stays(d: DocModel, ups: Seq<(NodeId, Seq<char>, ValueModel)>, k: int, i: int)
    requires
        0 <= i < k <= ups.len(),
        d.tree.nodes.dom().contains(ups[i].0),
        forall|j: int| i < j < k ==> !((#[trigger] ups[j]).0 == ups[i].0 && ups[j].1 == ups[i].1),
    ensures
        with_values(d, ups, k).tree.nodes.dom().contains(ups[i].0),
        with_values(d, ups, k).tree.nodes[ups[i].0].props.dom().contains(ups[i].1),
        with_values(d, ups, k).tree.nodes[ups[i].0].props[ups[i].1] == ups[i].2,
    decreases k,
{
    lemma_same_ids(d, ups, k - 1);
    if i < k - 1 {
        lemma_value_stays(d, ups, k - 1, i);
        assert(!(ups[k - 1].0 == ups[i].0 && ups[k - 1].1 == ups[i].1));
    }
}

pub proof fn lemma_same_ids(d: DocModel, ups: Seq<(NodeId, Seq<char>, ValueModel)>, k: int)
    ensures
        with_values(d, ups, k).tree.nodes.dom() == d.tree.nodes.dom(),
    decreases k,
{
    if k > 0 {
        lemma_same_ids(d, ups, k - 1);
        assert(with_values(d, ups, k).tree.nodes.dom() =~= d.tree.nodes.dom());
    }
}

pub proof fn lemma_moved_at(fl: Unit, s: Sampler, es: Seq<EntryModel>, dt: u32, k: int)
    requires
        0 <= k <= es.len(),
    ensures
        moved_values(fl, s, es, dt, k).len() == k,
        forall|i: int|
            0 <= i < k ==> #[trigger] moved_values(fl, s, es, dt, k)[i] == (
                es[i].id,
                es[i].prop,
                ValueModel::Px(shown(fl, s, aged(fl, es[i], dt))),
            ),
    decreases k,
{
    if k > 0 {
        lemma_moved_at(fl, s, es, dt, k - 1);
        let w = moved_values(fl, s, es, dt, k - 1);
        let r = moved_values(fl, s, es, dt, k);
        assert forall|i: int| 0 <= i < k implies #[trigger] r[i] == (
            es[i].id,
            es[i].prop,
            ValueModel::Px(shown(fl, s, aged(fl, es[i], dt))),
        ) by {
            if i < k - 1 {
                assert(r[i] == w[i]);
            }
        }
    }
}

/// After a frame the property that an animation moves stands where the animation is, and at its
/// target where it has taken its time.
pub proof fn law_frame_shows_animation<E: Fn(&Plan) -> Option<Vec<Frame>>>(
    e: E,
    fl: Unit,
    s: Sampler,
    g: Stepper,
    a: RuntimeModel,
    b: RuntimeModel,
    dt: u32,
    x: EntryModel,
)
    requires
        frame_follows(e, fl, s, g, a, b, dt),
        one_each(a.implicit),
        a.implicit.contains(x),
        a.doc.tree.nodes.dom().contains(x.id),
    ensures
        b.doc.tree.nodes.dom().contains(x.id),
        b.doc.tree.nodes[x.id].props.dom().contains(x.prop),
        b.doc.tree.nodes[x.id].props[x.prop] == ValueModel::Px(shown(fl, s, aged(fl, x, dt))),
        done(aged(fl, x, dt)) ==> b.doc.tree.nodes[x.id].props[x.prop] == ValueModel::Px(x.to),
{
    let m = sprung(g, detected(fl, s, a), dt);
    let n = m.implicit.len() as int;
    assert(m.implicit == a.implicit);
    let ups = moved_values(fl, s, m.implicit, dt, n);
    lemma_moved_at(fl, s, m.implicit, dt, n);
    let i = choose|i: int| 0 <= i < a.implicit.len() && a.implicit[i] == x;
    assert forall|j: int| i < j < n implies !((#[trigger] ups[j]).0 == ups[i].0 && ups[j].1 == ups[i].1) by {
        assert(!(a.implicit[i].id == a.implicit[j].id && a.implicit[i].prop == a.implicit[j].prop));
    }
    lemma_same_ids(a.doc, spring_values(g, a.springs, dt, a.springs.len() as int), a.springs.len() as int);
    lemma_value_stays(m.doc, ups, n, i);
}

/// What is behind the log of `a` in that of `b` is the system setting properties, and nothing else.
pub open spec fn only_moves(a: DocModel, b: DocModel) -> bool {
    &&& a.log.len() <= b.log.len()
    &&& b.log.take(a.log.len() as int) == a.log
    &&& forall|i: int|
        a.log.len() <= i < b.log.len() ==> (#[trigger] b.log[i]).origin == Origin::System && b.log[i].mutation
            is SetProp
}

pub proof fn lemma_values_logged(d: DocModel, ups: Seq<(NodeId, Seq<char>, ValueModel)>, k: int)
    ensures
        only_moves(d, with_values(d, ups, k)),
    decreases k,
{
    if k > 0 {
        lemma_values_logged(d, ups, k - 1);
        let a = with_values(d, ups, k - 1);
        let b = with_values(d, ups, k);
        assert(b.log.take(d.log.len() as int) =~= a.log.take(d.log.len() as int));
    } else {
        assert(d.log.take(d.log.len() as int) =~= d.log);
    }
}

/// Motion goes through the log like every other edit: what a frame does to the document is the
/// system setting properties.
pub proof fn law_motion_is_logged<E: Fn(&Plan) -> Option<Vec<Frame>>>(
    e: E,
    fl: Unit,
    s: Sampler,
    g: Stepper,
    a: RuntimeModel,
    b: RuntimeModel,
    dt: u32,
)
    requires
        relaid(e, fl, frame(fl, s, g, a, dt), b),
    ensures
        only_moves(a.doc, b.doc),
{
    let d = detected(fl, s, a);
    let order = walk_order(a.doc.tree);
    let es = started(fl, s, a, order, order.len() as int);
    lemma_begun_doc(noticed(fl, a), es, es.len() as int);
    let m = sprung(g, d, dt);
    lemma_values_logged(d.doc, spring_values(g, d.springs, dt, d.springs.len() as int), d.springs.len() as int);
    let n = m.implicit.len() as int;
    lemma_values_logged(m.doc, moved_values(fl, s, m.implicit, dt, n), n);
    assert(b.doc.log.take(a.doc.log.len() as int) =~= m.doc.log.take(a.doc.log.len() as int));
    assert forall|i: int| a.doc.log.len() <= i < b.doc.log.len() implies (#[trigger] b.doc.log[i]).origin
        == Origin::System && b.doc.log[i].mutation is SetProp by {
        if i < m.doc.log.len() {
            assert(b.doc.log.take(m.doc.log.len() as int)[i] == m.doc.log[i]);
            assert(m.doc.log[i].origin == Origin::System);
        }
    }
}

pub proof fn lemma_begun_doc(m: RuntimeModel, es: Seq<EntryModel>, k: int)
    ensures
        begun(m, es, k).doc == m.doc,
    decreases k,
{
    if k > 0 {
        lemma_begun_doc(m, es, k - 1);
    }
}

} // verus!
